//! The audio tracks of a disc image and where their data lies.
//!
//! Two sources of data are known:
//!   - Files of the file system (regular discs, extracted archives).
//!   - STORE-only ZIP entries accessed by byte offset (no extraction needed).
use vstd::prelude::*;
use vstd::slice::{slice_subrange, slice_to_vec};
use std::path::PathBuf;

verus! {

pub const SECTOR_BYTES: usize = 2352;

/// 4 packets of 24 bytes.
pub const CDG_BYTES_PER_SECTOR: usize = 96;

pub const SAMPLE_RATE: u32 = 44100;

pub const CHANNELS: u16 = 2;

/// A stretch of bytes to read from a file: `len` bytes from position `start` on.
#[derive(Debug)]
pub struct FileRange {
    pub path: PathBuf,
    pub start: u64,
    pub len: usize,
}

/// `bytes`, with zeros behind them up to the length `len`.
pub open spec fn padded(bytes: Seq<u8>, len: nat) -> Seq<u8> {
    Seq::new(
        len,
        |i: int|
            if i < bytes.len() {
                bytes[i]
            } else {
                0
            },
    )
}

impl FileRange {
    /// The bytes of this stretch, in a file that holds `file`. Where the file ends early, zeros
    /// follow.
    pub open spec fn content(self, file: Seq<u8>) -> Seq<u8> {
        padded(cut(file, self.start as int, self.len as int), self.len as nat)
    }

    /// The bytes of this stretch, given those of them that could be read. Where the file ends
    /// early, zeros follow.
    pub fn complete(&self, read: &[u8]) -> (bytes: Vec<u8>)
        ensures
            bytes@ == padded(read@, self.len as nat),
    {
        let mut bytes: Vec<u8> = Vec::with_capacity(self.len);
        let mut i: usize = 0;
        while i < self.len
            invariant
                i <= self.len,
                bytes@ == padded(read@, self.len as nat).take(i as int),
            decreases self.len - i,
        {
            bytes.push(
                if i < read.len() {
                    read[i]
                } else {
                    0
                },
            );
            assert(padded(read@, self.len as nat).take(i as int).push(
                padded(read@, self.len as nat)[i as int],
            ) =~= padded(read@, self.len as nat).take(i + 1));
            i = i + 1;
        }
        assert(padded(read@, self.len as nat).take(i as int) =~= padded(read@, self.len as nat));
        bytes
    }
}

/// Where the bytes that a caller asked for come from.
#[derive(Debug)]
pub enum Fetch {
    /// A stretch of a file.
    Range(FileRange),
    /// A whole file; no bytes where it cannot be read.
    File(PathBuf),
    /// Bytes that are at hand.
    Bytes(Vec<u8>),
}

pub enum FetchView {
    Range(FileRange),
    File(PathBuf),
    Bytes(Seq<u8>),
}

impl View for Fetch {
    type V = FetchView;

    open spec fn view(&self) -> FetchView {
        match *self {
            Fetch::Range(range) => FetchView::Range(range),
            Fetch::File(path) => FetchView::File(path),
            Fetch::Bytes(bytes) => FetchView::Bytes(bytes@),
        }
    }
}

/// Reference to uncompressed data inside a STORE-only ZIP file.
/// Because the data is not compressed, it sits at a fixed byte offset and can
/// be read by opening the ZIP as a plain file and seeking to `data_start`.
#[derive(Debug)]
pub struct ZipEntry {
    pub zip_path: PathBuf,
    /// Byte offset of the raw (uncompressed) data within the ZIP file.
    pub data_start: u64,
    /// Number of bytes of data.
    pub data_size: u64,
}

impl Clone for ZipEntry {
    fn clone(&self) -> (copy: ZipEntry)
        ensures
            copy == *self,
    {
        ZipEntry {
            zip_path: self.zip_path.clone(),
            data_start: self.data_start,
            data_size: self.data_size,
        }
    }
}

impl ZipEntry {
    /// How many bytes of the data follow its first `offset` bytes.
    pub open spec fn bytes_after(self, offset: u64) -> u64 {
        if offset < self.data_size {
            (self.data_size - offset) as u64
        } else {
            0
        }
    }

    /// The stretch of the ZIP file that holds `len` bytes of the data from `offset` on, or as
    /// many as there are.
    pub open spec fn range(self, offset: u64, len: usize) -> FileRange {
        let left = self.bytes_after(offset) as usize;
        FileRange {
            path: self.zip_path,
            start: (self.data_start + offset) as u64,
            len: if len <= left {
                len
            } else {
                left
            },
        }
    }

    /// The read that gives all of this entry's data.
    pub fn read_all(&self) -> (range: FileRange)
        ensures
            range == self.range(0, self.data_size as usize),
    {
        self.read_slice(0, self.data_size as usize)
    }

    /// The read that gives `len` bytes starting `offset` bytes into this entry's data.
    pub fn read_slice(&self, offset: u64, len: usize) -> (range: FileRange)
        requires
            self.data_start + offset <= u64::MAX,
        ensures
            range == self.range(offset, len),
    {
        let left: usize = self.data_size.saturating_sub(offset) as usize;
        FileRange {
            path: self.zip_path.clone(),
            start: self.data_start + offset,
            len: if len <= left {
                len
            } else {
                left
            },
        }
    }
}

/// The bytes of `data` from `start` on, at most `len` of them.
pub open spec fn cut(data: Seq<u8>, start: int, len: int) -> Seq<u8> {
    if start >= data.len() {
        Seq::empty()
    } else if start + len >= data.len() {
        data.skip(start)
    } else {
        data.subrange(start, start + len)
    }
}

/// The number that two bytes write in little-endian two's complement.
pub open spec fn sample(low: u8, high: u8) -> i16 {
    if high < 128 {
        (high * 256 + low) as i16
    } else {
        (high * 256 + low - 65536) as i16
    }
}

/// The samples that `bytes` hold, two bytes each. A last odd byte is left out.
pub open spec fn samples(bytes: Seq<u8>) -> Seq<i16> {
    Seq::new(bytes.len() / 2, |i: int| sample(bytes[2 * i], bytes[2 * i + 1]))
}

#[derive(Debug)]
pub struct Track {
    pub number: u32,
    /// On-disk .bin path.  None for ZIP-backed tracks.
    pub bin_path: Option<PathBuf>,
    /// ZIP source for the .bin data.  Takes priority over `bin_path`.
    pub bin_zip: Option<ZipEntry>,
    /// Byte offset within the .bin data where INDEX 01 audio begins.
    pub bin_audio_offset: u64,
    /// Absolute disc sector at INDEX 01 (used to seek in a monolithic .cdg).
    pub abs_sector: u64,
    /// Length of this track in sectors.
    pub sectors: u64,
    /// Per-track on-disk CDG file (the whole file is this track's data).
    pub cdg_path: Option<PathBuf>,
    /// Per-track CDG entry inside a STORE ZIP.  Takes priority over `cdg_path`.
    pub cdg_zip: Option<ZipEntry>,
}

/// A copy of an optional path.
pub fn clone_path(path: &Option<PathBuf>) -> (copy: Option<PathBuf>)
    ensures
        copy == *path,
{
    match path {
        Some(p) => Some(p.clone()),
        None => None,
    }
}

/// A copy of an optional ZIP entry.
pub fn clone_entry(entry: &Option<ZipEntry>) -> (copy: Option<ZipEntry>)
    ensures
        copy == *entry,
{
    match entry {
        Some(e) => Some(e.clone()),
        None => None,
    }
}

impl Clone for Track {
    fn clone(&self) -> (copy: Track)
        ensures
            copy == *self,
    {
        Track {
            number: self.number,
            bin_path: clone_path(&self.bin_path),
            bin_zip: clone_entry(&self.bin_zip),
            bin_audio_offset: self.bin_audio_offset,
            abs_sector: self.abs_sector,
            sectors: self.sectors,
            cdg_path: clone_path(&self.cdg_path),
            cdg_zip: clone_entry(&self.cdg_zip),
        }
    }
}

impl Track {
    /// Where this track starts in a monolithic .cdg.
    pub open spec fn cdg_start(self) -> int {
        self.abs_sector * CDG_BYTES_PER_SECTOR
    }

    /// How many bytes of CDG this track has.
    pub open spec fn cdg_len(self) -> int {
        (self.sectors as usize) * CDG_BYTES_PER_SECTOR
    }

    /// How many bytes of sound this track has.
    pub open spec fn audio_len(self) -> int {
        (self.sectors as usize) * SECTOR_BYTES
    }

    /// Whether the numbers that `read_cdg` computes fit in their types.
    pub open spec fn cdg_fits(self, has_raw: bool, global_zip: Option<ZipEntry>) -> bool {
        self.cdg_zip is None && self.cdg_path is None ==> match global_zip {
            Some(z) => {
                &&& self.cdg_start() <= u64::MAX
                &&& self.cdg_len() <= usize::MAX
                &&& z.data_start + self.cdg_start() <= u64::MAX
            },
            None => has_raw ==> {
                &&& self.cdg_start() <= u64::MAX
                &&& (self.cdg_start() as u64 as usize) + self.cdg_len() <= usize::MAX
            },
        }
    }

    /// Where this track's CDG bytes come from.
    pub open spec fn cdg_fetch(
        self,
        global_raw: Option<Seq<u8>>,
        global_zip: Option<ZipEntry>,
    ) -> FetchView {
        match (self.cdg_zip, self.cdg_path, global_zip, global_raw) {
            (Some(z), _, _, _) => FetchView::Range(z.range(0, z.data_size as usize)),
            (None, Some(path), _, _) => FetchView::File(path),
            (None, None, Some(z), _) => FetchView::Range(
                z.range(self.cdg_start() as u64, self.cdg_len() as usize),
            ),
            (None, None, None, Some(raw)) => FetchView::Bytes(
                cut(raw, self.cdg_start() as u64 as usize as int, self.cdg_len()),
            ),
            (None, None, None, None) => FetchView::Bytes(Seq::empty()),
        }
    }

    /// Whether the numbers that `load_audio` computes fit in their types.
    pub open spec fn audio_fetch_fits(self) -> bool {
        self.bin_zip matches Some(z) ==> {
            &&& self.audio_len() <= usize::MAX
            &&& z.data_start + self.bin_audio_offset <= u64::MAX
        }
    }

    /// Whether the numbers that `audio_samples` computes fit in their types.
    pub open spec fn audio_cut_fits(self) -> bool {
        self.bin_zip is None && self.bin_path is Some ==> (self.bin_audio_offset as usize)
            + self.audio_len() <= usize::MAX
    }

    /// Where this track's sound comes from.
    pub open spec fn audio_fetch(self) -> FetchView {
        match (self.bin_zip, self.bin_path) {
            (Some(z), _) => FetchView::Range(
                z.range(self.bin_audio_offset, self.audio_len() as usize),
            ),
            (None, Some(path)) => FetchView::File(path),
            (None, None) => FetchView::Bytes(Seq::empty()),
        }
    }

    /// The part of the fetched bytes that is sound: from a ZIP only the sound is read, from a
    /// file on disk all of it.
    pub open spec fn audio_bytes(self, fetched: Seq<u8>) -> Seq<u8> {
        match (self.bin_zip, self.bin_path) {
            (Some(_), _) => fetched,
            (None, Some(_)) => cut(fetched, self.bin_audio_offset as usize as int, self.audio_len()),
            (None, None) => Seq::empty(),
        }
    }

    /// Whether the numbers that `read_cdg` computes fit in their types.
    pub fn check_cdg(&self, has_raw: bool, global_zip: Option<&ZipEntry>) -> (fit: bool)
        ensures
            fit == self.cdg_fits(
                has_raw,
                match global_zip {
                    Some(z) => Some(*z),
                    None => None,
                },
            ),
    {
        if self.cdg_zip.is_some() || self.cdg_path.is_some() {
            return true;
        }
        let start = self.abs_sector.checked_mul(CDG_BYTES_PER_SECTOR as u64);
        let len = (self.sectors as usize).checked_mul(CDG_BYTES_PER_SECTOR);
        match (global_zip, start, len) {
            (Some(z), Some(start), Some(_)) => z.data_start.checked_add(start).is_some(),
            (None, Some(start), Some(len)) => !has_raw || (start as usize).checked_add(len).is_some(),
            (Some(_), _, _) => false,
            (None, _, _) => !has_raw,
        }
    }

    /// Whether the numbers that `load_audio` computes fit in their types.
    pub fn check_audio_fetch(&self) -> (fit: bool)
        ensures
            fit == self.audio_fetch_fits(),
    {
        match &self.bin_zip {
            Some(z) => (self.sectors as usize).checked_mul(SECTOR_BYTES).is_some()
                && z.data_start.checked_add(self.bin_audio_offset).is_some(),
            None => true,
        }
    }

    /// Whether the numbers that `audio_samples` computes fit in their types.
    pub fn check_audio_cut(&self) -> (fit: bool)
        ensures
            fit == self.audio_cut_fits(),
    {
        if self.bin_zip.is_some() || self.bin_path.is_none() {
            return true;
        }
        match (self.sectors as usize).checked_mul(SECTOR_BYTES) {
            Some(len) => (self.bin_audio_offset as usize).checked_add(len).is_some(),
            None => false,
        }
    }

    /// Byte offset into a monolithic .cdg file for this track's start.
    pub fn cdg_offset(&self) -> (offset: u64)
        requires
            self.cdg_start() <= u64::MAX,
        ensures
            offset == self.cdg_start(),
    {
        self.abs_sector * CDG_BYTES_PER_SECTOR as u64
    }

    /// Where this track's CDG bytes are read, from whichever source is available.
    ///
    /// Priority: per-track ZIP → per-track file → monolithic ZIP (sliced) →
    /// monolithic file bytes (pre-loaded, sliced).
    pub fn read_cdg(&self, global_raw: Option<&[u8]>, global_zip: Option<&ZipEntry>) -> (fetch: Fetch)
        requires
            self.cdg_fits(
                global_raw is Some,
                match global_zip {
                    Some(z) => Some(*z),
                    None => None,
                },
            ),
        ensures
            fetch@ == self.cdg_fetch(
                match global_raw {
                    Some(raw) => Some(raw@),
                    None => None,
                },
                match global_zip {
                    Some(z) => Some(*z),
                    None => None,
                },
            ),
    {
        if let Some(z) = &self.cdg_zip {
            return Fetch::Range(z.read_all());
        }
        if let Some(path) = &self.cdg_path {
            return Fetch::File(path.clone());
        }
        if let Some(z) = global_zip {
            let offset: u64 = self.cdg_offset();
            let len: usize = self.sectors as usize * CDG_BYTES_PER_SECTOR;
            return Fetch::Range(z.read_slice(offset, len));
        }
        if let Some(raw) = global_raw {
            let start: usize = self.cdg_offset() as usize;
            return Fetch::Bytes(cut_bytes(raw, start, self.sectors as usize * CDG_BYTES_PER_SECTOR));
        }
        let none: Vec<u8> = Vec::new();
        assert(none@ =~= Seq::empty());
        Fetch::Bytes(none)
    }

    /// Returns true if this track has any CDG source (per-track or implied by
    /// global sources passed by the caller).
    pub fn has_cdg(&self, has_global: bool) -> (has: bool)
        ensures
            has == (self.cdg_zip is Some || self.cdg_path is Some || has_global),
    {
        self.cdg_zip.is_some() || self.cdg_path.is_some() || has_global
    }

    /// Where this track's audio is read. `audio_samples` makes samples of what is read there.
    pub fn load_audio(&self) -> (fetch: Fetch)
        requires
            self.audio_fetch_fits(),
        ensures
            fetch@ == self.audio_fetch(),
    {
        if let Some(z) = &self.bin_zip {
            // Read only the audio portion directly from the ZIP.
            return Fetch::Range(
                z.read_slice(self.bin_audio_offset, self.sectors as usize * SECTOR_BYTES),
            );
        }
        if let Some(path) = &self.bin_path {
            return Fetch::File(path.clone());
        }
        let none: Vec<u8> = Vec::new();
        assert(none@ =~= Seq::empty());
        Fetch::Bytes(none)
    }

    /// This track's audio as interleaved i16 samples (L, R, …), given the bytes that were read
    /// where `load_audio` says.
    pub fn audio_samples(&self, fetched: &[u8]) -> (list: Vec<i16>)
        requires
            self.audio_cut_fits(),
        ensures
            list@ == samples(self.audio_bytes(fetched@)),
    {
        if self.bin_zip.is_some() {
            decode_samples(fetched)
        } else if self.bin_path.is_some() {
            let start: usize = self.bin_audio_offset as usize;
            decode_samples(&cut_bytes(fetched, start, self.sectors as usize * SECTOR_BYTES))
        } else {
            let none: Vec<i16> = Vec::new();
            assert(none@ =~= samples(Seq::empty()));
            none
        }
    }
}

/// The bytes of `data` from `start` on, at most `len` of them.
pub fn cut_bytes(data: &[u8], start: usize, len: usize) -> (part: Vec<u8>)
    requires
        start + len <= usize::MAX,
    ensures
        part@ == cut(data@, start as int, len as int),
{
    let from: usize = if start <= data.len() {
        start
    } else {
        data.len()
    };
    let to: usize = if start + len <= data.len() {
        start + len
    } else {
        data.len()
    };
    let part = slice_to_vec(slice_subrange(data, from, to));
    assert(part@ =~= cut(data@, start as int, len as int));
    part
}

/// The samples that `bytes` hold.
pub fn decode_samples(bytes: &[u8]) -> (list: Vec<i16>)
    ensures
        list@ == samples(bytes@),
{
    let count: usize = bytes.len() / 2;
    let mut list: Vec<i16> = Vec::with_capacity(count);
    let mut i: usize = 0;
    while i < count
        invariant
            i <= count,
            count == bytes@.len() / 2,
            bytes@.len() <= usize::MAX,
            list@ == samples(bytes@).take(i as int),
        decreases count - i,
    {
        let low: u8 = bytes[2 * i];
        let high: u8 = bytes[2 * i + 1];
        let value: i32 = if high < 128 {
            high as i32 * 256 + low as i32
        } else {
            high as i32 * 256 + low as i32 - 65536
        };
        list.push(value as i16);
        assert(samples(bytes@).take(i as int).push(samples(bytes@)[i as int]) =~= samples(bytes@).take(
            i + 1,
        ));
        i = i + 1;
    }
    assert(samples(bytes@).take(i as int) =~= samples(bytes@));
    list
}

} // verus!
