use cdg_player::cue::{
    cut_bytes, decode_samples, Fetch, FileRange, Track, ZipEntry, CDG_BYTES_PER_SECTOR, CHANNELS, SAMPLE_RATE,
    SECTOR_BYTES,
};
use std::path::PathBuf;

fn entry(data_start: u64, data_size: u64) -> ZipEntry {
    ZipEntry { zip_path: PathBuf::from("a.zip"), data_start, data_size }
}

fn track() -> Track {
    Track {
        number: 1,
        bin_path: None,
        bin_zip: None,
        bin_audio_offset: 0,
        abs_sector: 0,
        sectors: 0,
        cdg_path: None,
        cdg_zip: None,
    }
}

fn range(fetch: Fetch) -> (PathBuf, u64, usize) {
    match fetch {
        Fetch::Range(r) => (r.path, r.start, r.len),
        other => panic!("{:?}", other),
    }
}

fn bytes(fetch: Fetch) -> Vec<u8> {
    match fetch {
        Fetch::Bytes(b) => b,
        other => panic!("{:?}", other),
    }
}

/// What a file that holds `file` gives for `range`.
fn read(range: &FileRange, file: &[u8]) -> Vec<u8> {
    range.complete(&cut_bytes(file, range.start as usize, range.len))
}

#[test]
fn constants() {
    assert_eq!((SECTOR_BYTES, CDG_BYTES_PER_SECTOR, SAMPLE_RATE, CHANNELS), (2352, 96, 44100, 2));
}

#[test]
fn slices_of_an_entry() {
    let e = entry(100, 50);
    let r = e.read_slice(10, 20);
    assert_eq!((r.path, r.start, r.len), (PathBuf::from("a.zip"), 110, 20));
    assert_eq!(e.read_slice(40, 20).len, 10);
    assert_eq!(e.read_slice(50, 20).len, 0);
    assert_eq!(e.read_slice(60, 20).len, 0);
    assert_eq!(e.read_slice(60, 20).start, 160);
    let all = e.read_all();
    assert_eq!((all.start, all.len), (100, 50));
}

#[test]
fn reads_stay_in_the_entry() {
    let e = entry(7, 5);
    for offset in 0..8u64 {
        for len in 0..8usize {
            let r = e.read_slice(offset, len);
            assert!(r.len <= len);
            if offset <= 5 {
                assert!(r.start + r.len as u64 <= 12);
            }
        }
    }
}

#[test]
fn reads_give_the_data() {
    let file: Vec<u8> = (0..40).collect();
    let e = entry(10, 20);
    assert_eq!(read(&e.read_all(), &file), file[10..30].to_vec());
    assert_eq!(read(&e.read_slice(5, 4), &file), vec![15, 16, 17, 18]);
    assert_eq!(read(&e.read_slice(18, 10), &file), vec![28, 29]);
}

#[test]
fn short_files_give_zeros() {
    let r = entry(0, 4).read_all();
    assert_eq!(r.complete(&[1, 2]), vec![1, 2, 0, 0]);
    assert_eq!(r.complete(&[1, 2, 3, 4, 5]), vec![1, 2, 3, 4]);
    assert_eq!(r.complete(&[]), vec![0; 4]);
}

#[test]
fn cuts() {
    assert_eq!(cut_bytes(&[1, 2, 3, 4], 1, 2), vec![2, 3]);
    assert_eq!(cut_bytes(&[1, 2, 3, 4], 3, 5), vec![4]);
    assert_eq!(cut_bytes(&[1, 2, 3, 4], 4, 5), Vec::<u8>::new());
    assert_eq!(cut_bytes(&[1, 2, 3, 4], 9, 5), Vec::<u8>::new());
}

#[test]
fn samples_as_in_std() {
    assert_eq!(decode_samples(&[0x34, 0x12, 0xff, 0xff, 0x00, 0x80, 0xff, 0x7f, 9]), vec![0x1234, -1, i16::MIN, i16::MAX]);
    assert!(decode_samples(&[]).is_empty());
    assert!(decode_samples(&[1]).is_empty());
    let mut data: Vec<u8> = Vec::new();
    let mut expected: Vec<i16> = Vec::new();
    for s in i16::MIN..=i16::MAX {
        data.extend_from_slice(&s.to_le_bytes());
        expected.push(s);
    }
    assert_eq!(decode_samples(&data), expected);
}

#[test]
fn cdg_offsets() {
    let mut t = track();
    t.abs_sector = 150;
    assert_eq!(t.cdg_offset(), 14400);
}

#[test]
fn cdg_sources_in_order() {
    let raw: Vec<u8> = (0..200u32).map(|n| n as u8).collect();
    let global = entry(1000, 5000);
    let mut t = track();
    t.abs_sector = 1;
    t.sectors = 2;
    assert!(bytes(t.read_cdg(None, None)).is_empty());
    assert_eq!(bytes(t.read_cdg(Some(&raw), None)), raw[96..200].to_vec());
    assert_eq!(range(t.read_cdg(Some(&raw), Some(&global))), (PathBuf::from("a.zip"), 1096, 192));
    t.cdg_path = Some(PathBuf::from("t.cdg"));
    match t.read_cdg(Some(&raw), Some(&global)) {
        Fetch::File(path) => assert_eq!(path, PathBuf::from("t.cdg")),
        other => panic!("{:?}", other),
    }
    t.cdg_zip = Some(entry(30, 96));
    assert_eq!(range(t.read_cdg(Some(&raw), Some(&global))), (PathBuf::from("a.zip"), 30, 96));
}

#[test]
fn cdg_behind_the_end_is_empty() {
    let mut t = track();
    t.abs_sector = 10;
    t.sectors = 2;
    assert!(bytes(t.read_cdg(Some(&[1, 2, 3]), None)).is_empty());
}

#[test]
fn cdg_in_zip_is_cdg_at_hand() {
    let raw: Vec<u8> = (0..500u32).map(|n| n as u8).collect();
    let mut file: Vec<u8> = vec![7; 13];
    file.extend_from_slice(&raw);
    file.extend_from_slice(&[8; 400]);
    let global = entry(13, 500);
    let mut t = track();
    t.abs_sector = 3;
    t.sectors = 4;
    let at_hand = bytes(t.read_cdg(Some(&raw), None));
    match t.read_cdg(None, Some(&global)) {
        Fetch::Range(r) => assert_eq!(read(&r, &file), at_hand),
        other => panic!("{:?}", other),
    }
}

#[test]
fn has_cdg_from_any_source() {
    let mut t = track();
    assert!(!t.has_cdg(false));
    assert!(t.has_cdg(true));
    t.cdg_path = Some(PathBuf::from("x"));
    assert!(t.has_cdg(false));
    t.cdg_path = None;
    t.cdg_zip = Some(entry(0, 0));
    assert!(t.has_cdg(false));
}

#[test]
fn audio_sources() {
    let mut t = track();
    t.bin_audio_offset = 2352;
    t.sectors = 2;
    assert!(bytes(t.load_audio()).is_empty());
    assert!(t.audio_samples(&[1, 2]).is_empty());
    t.bin_path = Some(PathBuf::from("t.bin"));
    match t.load_audio() {
        Fetch::File(path) => assert_eq!(path, PathBuf::from("t.bin")),
        other => panic!("{:?}", other),
    }
    t.bin_zip = Some(entry(100, 3 * 2352));
    assert_eq!(range(t.load_audio()), (PathBuf::from("a.zip"), 2452, 4704));
    t.sectors = 9;
    assert_eq!(range(t.load_audio()), (PathBuf::from("a.zip"), 2452, 4704));
}

#[test]
fn zip_sounds_like_disk() {
    let data: Vec<u8> = (0..3 * 2352u32 + 5).map(|n| (n % 251) as u8).collect();
    let mut file: Vec<u8> = vec![1; 77];
    file.extend_from_slice(&data);
    file.extend_from_slice(&[2; 50]);
    for sectors in [0u64, 1, 2, 5] {
        let mut disk = track();
        disk.bin_path = Some(PathBuf::from("t.bin"));
        disk.bin_audio_offset = 2352;
        disk.sectors = sectors;
        let mut zipped = disk.clone();
        zipped.bin_zip = Some(entry(77, data.len() as u64));
        let fetched = match zipped.load_audio() {
            Fetch::Range(r) => read(&r, &file),
            other => panic!("{:?}", other),
        };
        assert_eq!(zipped.audio_samples(&fetched), disk.audio_samples(&data));
    }
}

#[test]
fn audio_behind_the_end_is_empty() {
    let mut t = track();
    t.bin_path = Some(PathBuf::from("t.bin"));
    t.bin_audio_offset = 10;
    t.sectors = 1;
    assert!(t.audio_samples(&[0; 10]).is_empty());
    assert_eq!(t.audio_samples(&[1; 12]), vec![257]);
}

#[test]
fn numbers_out_of_range() {
    let mut t = track();
    t.abs_sector = u64::MAX;
    assert!(t.check_cdg(false, None));
    assert!(!t.check_cdg(true, None));
    assert!(!t.check_cdg(false, Some(&entry(0, 0))));
    t.abs_sector = 1;
    assert!(t.check_cdg(true, Some(&entry(0, 0))));
    assert!(!t.check_cdg(true, Some(&entry(u64::MAX, 0))));
    t.cdg_path = Some(PathBuf::from("x"));
    t.abs_sector = u64::MAX;
    assert!(t.check_cdg(true, Some(&entry(u64::MAX, 0))));

    let mut t = track();
    t.sectors = u64::MAX;
    assert!(t.check_audio_fetch());
    assert!(t.check_audio_cut());
    t.bin_path = Some(PathBuf::from("x"));
    assert!(t.check_audio_fetch());
    assert!(!t.check_audio_cut());
    t.bin_zip = Some(entry(0, 0));
    assert!(!t.check_audio_fetch());
    assert!(t.check_audio_cut());
    t.sectors = 1;
    assert!(t.check_audio_fetch());
    t.bin_audio_offset = 1;
    t.bin_zip = Some(entry(u64::MAX, 0));
    assert!(!t.check_audio_fetch());
}

#[test]
fn clones_are_equal() {
    let mut t = track();
    t.bin_path = Some(PathBuf::from("p"));
    t.cdg_zip = Some(entry(1, 2));
    assert_eq!(format!("{:?}", t.clone()), format!("{:?}", t));
}

#[test]
fn zip_bin_comes_before_disk_bin() {
    let zipped = Track { bin_zip: Some(entry(10, 5000)), sectors: 2, bin_audio_offset: 4, ..track() };
    let both = Track { bin_path: Some(PathBuf::from("a.bin")), ..zipped.clone() };
    assert_eq!(range(both.load_audio()), (PathBuf::from("a.zip"), 14, 4704));
    assert_eq!(range(both.load_audio()), range(zipped.load_audio()));
    assert_eq!(both.audio_samples(&[1, 0, 255, 255]), vec![1, -1]);
    assert_eq!(zipped.audio_samples(&[1, 0, 255, 255]), vec![1, -1]);
}
