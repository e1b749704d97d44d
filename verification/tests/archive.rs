use cdg_player::archive::{
    cdg_candidate, parse_cue_from_zip, resolve_disk_bin, resolve_zip_bin, try_parse_cue_from_zip, EntryMap,
};
use cdg_player::cue::Track;
use std::path::{Path, PathBuf};

fn entries(list: &[(&str, u64, u64)]) -> EntryMap {
    let mut map = EntryMap::new();
    for &(name, data_start, data_size) in list {
        map.insert(name.to_string(), data_start, data_size);
    }
    map
}

fn place(track: &Track) -> (u64, u64) {
    let z = track.bin_zip.as_ref().unwrap();
    (z.data_start, z.data_size)
}

fn bin_start(name: &str, list: &[(&str, u64, u64)]) -> Option<u64> {
    resolve_zip_bin(name, &PathBuf::from("a.zip"), &entries(list)).map(|r| r.bin_zip.unwrap().data_start)
}

#[test]
fn sheet_in_a_zip() {
    let text = "FILE \"Disc (Track 1).bin\" BINARY\nTRACK 01 AUDIO\nINDEX 01 00:00:00\n\
        FILE \"Disc (Track 2).bin\" BINARY\nTRACK 02 AUDIO\nINDEX 01 00:00:02";
    let map = entries(&[
        ("disc (track 1).bin", 100, 2352 * 10 + 7),
        ("disc (track 2).bin", 50_000, 2352 * 20),
        ("disc (track 2).cdg", 90_000, 960),
    ]);
    let tracks = parse_cue_from_zip(text, Path::new("dir/disc.zip"), &map);
    assert_eq!(tracks.len(), 2);
    assert_eq!(place(&tracks[0]), (100, 2352 * 10 + 7));
    assert_eq!(place(&tracks[1]), (50_000, 2352 * 20));
    assert_eq!((tracks[0].abs_sector, tracks[0].sectors, tracks[0].bin_audio_offset), (0, 10, 0));
    assert_eq!((tracks[1].abs_sector, tracks[1].sectors, tracks[1].bin_audio_offset), (12, 18, 4704));
    assert!(tracks[0].cdg_zip.is_none());
    let cdg = tracks[1].cdg_zip.as_ref().unwrap();
    assert_eq!((cdg.data_start, cdg.data_size), (90_000, 960));
    for t in &tracks {
        assert!(t.bin_path.is_none() && t.cdg_path.is_none());
        assert_eq!(t.bin_zip.as_ref().unwrap().zip_path, PathBuf::from("dir/disc.zip"));
        assert!(t.bin_audio_offset + t.sectors * 2352 <= t.bin_zip.as_ref().unwrap().data_size);
    }
    assert_eq!(cdg.zip_path, PathBuf::from("dir/disc.zip"));
    let checked = try_parse_cue_from_zip(text, Path::new("dir/disc.zip"), &map).unwrap();
    assert_eq!(format!("{:?}", checked), format!("{:?}", tracks));
}

#[test]
fn names_match_in_folded_ascii() {
    let list = [("cafe (track 1).bin", 1, 1), ("caf (track 1).bin", 2, 1)];
    assert_eq!(bin_start("Café (Track 1).BIN", &list), Some(2));
    assert_eq!(bin_start("CAFE (TRACK 1).BIN", &list), Some(1));
    assert_eq!(bin_start("cafe\u{301} (track 1).bin", &list), Some(1));
}

#[test]
fn names_match_by_number() {
    let list = [("x (track 3).cdg", 1, 1), ("x (track 3).bin", 2, 1), ("y (track 3).bin", 3, 1)];
    assert_eq!(bin_start("z (Track 03).bin", &list), Some(2));
    assert_eq!(bin_start("z (Track 04).bin", &list), None);
    assert_eq!(bin_start("z.bin", &list), None);
    assert_eq!(bin_start("y (Track 3).bin", &list), Some(3));
}

#[test]
fn entry_order_does_not_matter() {
    let one = [("x (track 1).bin", 1, 1), ("x (track 2).bin", 2, 1), ("notes.txt", 3, 1)];
    let other = [("notes.txt", 3, 1), ("x (track 2).bin", 2, 1), ("x (track 1).bin", 1, 1)];
    for name in ["x (Track 1).bin", "q (Track 2).bin", "q (Track 9).bin", "NOTES.txt"] {
        assert_eq!(bin_start(name, &one), bin_start(name, &other));
    }
}

#[test]
fn cdg_beside_the_bin() {
    let map = entries(&[("a.bin", 1, 2352), ("a.cdg", 2, 5), ("b.iso", 3, 2352)]);
    let a = resolve_zip_bin("A.bin", &PathBuf::from("z"), &map).unwrap();
    assert_eq!(a.cdg_zip.unwrap().data_start, 2);
    assert_eq!(a.size_sectors, 1);
    // Beside a name without .bin there is no CDG data.
    let b = resolve_zip_bin("b.iso", &PathBuf::from("z"), &map).unwrap();
    assert_eq!(b.bin_zip.unwrap().data_start, 3);
    assert!(b.cdg_zip.is_none());
}

#[test]
fn files_on_disk() {
    let r = resolve_disk_bin(PathBuf::from("a.bin"), Some(2352 * 4 + 1), PathBuf::from("a.cdg"), Some(1));
    assert_eq!(r.size_sectors, 4);
    assert_eq!(r.bin_path, Some(PathBuf::from("a.bin")));
    assert_eq!(r.cdg_path, Some(PathBuf::from("a.cdg")));
    assert!(r.bin_zip.is_none() && r.cdg_zip.is_none());
    let r = resolve_disk_bin(PathBuf::from("a.bin"), None, PathBuf::from("a.cdg"), Some(0));
    assert_eq!(r.size_sectors, 0);
    assert_eq!(r.cdg_path, None);
    let r = resolve_disk_bin(PathBuf::from("a.bin"), None, PathBuf::from("a.cdg"), None);
    assert_eq!(r.cdg_path, None);
}

#[test]
fn zip_sheets_that_do_not_fit() {
    let map = entries(&[("a.bin", 0, 2352)]);
    let text = "FILE \"a.bin\" BINARY\nTRACK 01 AUDIO\nINDEX 01 18446744073709551615:00:00";
    assert!(try_parse_cue_from_zip(text, Path::new("z"), &map).is_none());
}

#[test]
fn cdg_beside_a_bin_on_disk() {
    for (bin, cdg) in [
        ("dir/a (Track 1).bin", "dir/a (Track 1).cdg"),
        ("a.b.BIN", "a.b.cdg"),
        ("dir.x/a", "dir.x/a.cdg"),
        (".bin", ".bin.cdg"),
        ("dir/a.", "dir/a.cdg"),
        ("...", "...cdg"),
    ] {
        assert_eq!(cdg_candidate(&PathBuf::from(bin)), PathBuf::from(cdg));
    }
}

#[test]
fn image_that_is_no_bin() {
    let map = entries(&[("disc.img", 0, 2352)]);
    let text = "FILE \"disc.img\" BINARY\nTRACK 01 AUDIO\nINDEX 01 00:00:00";
    let tracks = parse_cue_from_zip(text, Path::new("/d.zip"), &map);
    assert_eq!(tracks.len(), 1);
    assert_eq!(place(&tracks[0]), (0, 2352));
    assert!(tracks[0].cdg_zip.is_none());
}

#[test]
fn names_occur_once() {
    let map = entries(&[("a (track 1).bin", 1, 1), ("b (track 1).bin", 2, 1), ("a (track 1).bin", 3, 1)]);
    let start = |name: &str| {
        resolve_zip_bin(name, &PathBuf::from("z"), &map).map(|r| r.bin_zip.unwrap().data_start)
    };
    assert_eq!(start("A (Track 1).bin"), Some(3));
    assert_eq!(start("b (track 1).bin"), Some(2));
    assert_eq!(start("c (track 1).bin"), Some(3));
    assert_eq!(start("c (track 2).bin"), None);
    assert!(resolve_zip_bin("a", &PathBuf::from("z"), &EntryMap::new()).is_none());
}
