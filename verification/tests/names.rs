use cdg_player::names::{
    ascii_fold, extension_is, find_fs_bin, resolve_fs_bin, track_num_from_name, track_num_in,
};
use std::path::{Path, PathBuf};

fn strings(names: &[&str]) -> Vec<String> {
    names.iter().map(|n| n.to_string()).collect()
}

#[test]
fn fold_keeps_small_ascii() {
    assert_eq!(ascii_fold("Café Ünï (Track 01).BIN"), "caf n (track 01).bin");
    assert_eq!(ascii_fold(""), "");
    assert_eq!(ascii_fold("日本"), "");
    assert_eq!(ascii_fold("@AZ[`az{\u{7f}"), "@az[`az{\u{7f}");
}

#[test]
fn fold_twice_is_fold_once() {
    let once = ascii_fold("Ça Va (Track 2).bin");
    assert_eq!(ascii_fold(&once), once);
}

#[test]
fn fold_joins_and_skips() {
    assert_eq!(ascii_fold("ABcd"), ascii_fold("AB") + &ascii_fold("cd"));
    assert_eq!(ascii_fold("AB\u{301}cd"), ascii_fold("abCD"));
}

#[test]
fn track_numbers() {
    assert_eq!(track_num_from_name("Disc (Track 07).bin"), Some(7));
    assert_eq!(track_num_from_name("TRACK12.BIN"), Some(12));
    assert_eq!(track_num_from_name("Soundtrack vol. (Track 3)"), Some(3));
    assert_eq!(track_num_from_name("track"), None);
    assert_eq!(track_num_from_name("no number 4"), None);
    assert_eq!(track_num_from_name("track 4294967295"), Some(4294967295));
    assert_eq!(track_num_from_name("track 4294967296"), None);
    assert_eq!(track_num_from_name("Soundtrack Vol. 2 (Track 05).bin"), Some(5));
    assert_eq!(track_num_from_name("Soundtrack 2 - Track 5.bin"), Some(5));
    assert_eq!(track_num_from_name("Track Vol. 2 (Track 05).bin"), Some(5));
    assert_eq!(track_num_from_name("Track 3 (Track 05).bin"), Some(3));
    assert_eq!(track_num_from_name("(Track 7 of 9)"), Some(7));
    assert_eq!(track_num_from_name("trac\u{212a} 6"), Some(6));
}

#[test]
fn track_numbers_behind_anything() {
    assert_eq!(track_num_from_name("Track (05).bin"), Some(5));
    assert_eq!(track_num_from_name("Track [05].bin"), Some(5));
    assert_eq!(track_num_from_name("track:5"), Some(5));
    assert_eq!(track_num_from_name("Tracks 5.bin"), Some(5));
    assert_eq!(track_num_from_name("track one 5"), Some(5));
    assert_eq!(track_num_from_name("track ٣ 5"), Some(5));
    assert_eq!(track_num_from_name("Soundtrack (1999).bin"), Some(1999));
    assert_eq!(track_num_from_name("Soundtrack 2.bin"), Some(2));
    assert_eq!(track_num_from_name("Soundtrack a 2 racetrack 3"), Some(2));
    assert_eq!(track_num_from_name("track_03.bin"), Some(3));
    assert_eq!(track_num_from_name("5 tracks.bin"), None);
}

#[test]
fn track_numbers_in_small_letters() {
    assert_eq!(track_num_in("a track 10b"), Some(10));
    assert_eq!(track_num_in("A TRACK 10b"), None);
    assert_eq!(track_num_in(""), None);
}

#[test]
fn extensions_as_in_std() {
    for name in ["a.bin", "a.BIN", ".bin", "a.b.bin", "bin", "a.", "..", "...", ".a.bin", "a.bin.", "a.binx", "é.Bin"] {
        let expected = Path::new(name)
            .extension()
            .and_then(|x| x.to_str())
            .map_or(false, |x| x.eq_ignore_ascii_case("bin"));
        assert_eq!(extension_is(name, "bin"), expected, "{}", name);
    }
}

#[test]
fn disk_match_by_fold() {
    let files = strings(&["Album (Track 1).txt", "album (track 1).bin", "ALBUM (TRACK 1).BIN"]);
    assert_eq!(find_fs_bin("Albüm\u{301} (Track 1).bin", &files), Some(1));
    assert_eq!(find_fs_bin("Album (Track 1).bin", &files), Some(1));
}

#[test]
fn disk_match_by_number() {
    let files = strings(&["x (Track 2).cue", "x (Track 12).bin", "x (Track 02).bin"]);
    assert_eq!(find_fs_bin("Renamed (Track 2).bin", &files), Some(2));
    assert_eq!(find_fs_bin("Renamed (Track 3).bin", &files), None);
    assert_eq!(find_fs_bin("Renamed.bin", &files), None);
    assert_eq!(find_fs_bin("Renamed (Track 2).bin", &Vec::new()), None);
}

#[test]
fn disk_match_prefers_fold_to_number() {
    let files = strings(&["other (track 2).bin", "mine (track 2).bin"]);
    assert_eq!(find_fs_bin("Mine (Track 2).bin", &files), Some(1));
    assert_eq!(find_fs_bin("Mïne (Track 2).bin", &files), Some(0));
}

#[test]
fn disk_paths() {
    let files = strings(&["notes.txt", "Caf\u{e9} (Track 1).bin", "other (Track 2).bin"]);
    let paths: Vec<PathBuf> = files.iter().map(|f| Path::new("dir").join(f)).collect();
    let resolve = |name: &str, exists: bool| {
        resolve_fs_bin(name, Path::new("dir").join(name), exists, &files, &paths)
    };
    assert_eq!(resolve("Caf\u{c9} (track 1).bin", false), paths[1]);
    assert_eq!(resolve("Caf\u{c9} (track 1).bin", true), Path::new("dir").join("Caf\u{c9} (track 1).bin"));
    assert_eq!(resolve("disc (Track 02).bin", false), paths[2]);
    assert_eq!(resolve("disc (Track 03).bin", false), Path::new("dir").join("disc (Track 03).bin"));
}
