use cdg_player::cue::{Track, ZipEntry};
use cdg_player::disc::{check_sheet, parse_cue_impl, try_parse_cue, ResolvedBin};
use std::path::PathBuf;

fn bin(name: &str, size_sectors: u64) -> Option<ResolvedBin> {
    Some(ResolvedBin {
        bin_path: Some(PathBuf::from(name)),
        bin_zip: None,
        size_sectors,
        cdg_path: None,
        cdg_zip: None,
    })
}

/// Number, path, offset, sector and length of each track.
fn rows(tracks: &[Track]) -> Vec<(u32, String, u64, u64, u64)> {
    tracks
        .iter()
        .map(|t| {
            let path = t.bin_path.as_ref().map_or(String::new(), |p| p.to_string_lossy().into_owned());
            (t.number, path, t.bin_audio_offset, t.abs_sector, t.sectors)
        })
        .collect()
}

fn row(number: u32, path: &str, offset: u64, sector: u64, sectors: u64) -> (u32, String, u64, u64, u64) {
    (number, path.to_string(), offset, sector, sectors)
}

#[test]
fn multi_bin_sheet() {
    let text = "FILE \"1.bin\" BINARY\n  TRACK 01 AUDIO\n    INDEX 01 00:00:00\n\
        FILE \"2.bin\" BINARY\n  TRACK 02 AUDIO\n    INDEX 00 00:00:00\n    INDEX 01 00:02:00\n\
        FILE \"3.bin\" BINARY\n  TRACK 03 AUDIO\n    INDEX 01 00:00:05\n";
    let resolved = vec![bin("1.bin", 1000), bin("2.bin", 2000), bin("3.bin", 300)];
    let tracks = parse_cue_impl(text, &resolved);
    assert_eq!(
        rows(&tracks),
        vec![
            row(1, "1.bin", 0, 0, 1000),
            row(2, "2.bin", 150 * 2352, 1150, 1850),
            row(3, "3.bin", 5 * 2352, 3005, 295),
        ]
    );
    for pair in tracks.windows(2) {
        assert!(pair[0].abs_sector + pair[0].sectors <= pair[1].abs_sector);
    }
}

#[test]
fn data_tracks_take_space() {
    let text = "FILE \"1.bin\" BINARY\nTRACK 01 MODE1/2352\nINDEX 01 00:00:00\n\
        FILE \"2.bin\" BINARY\nTRACK 02 AUDIO\nINDEX 01 00:00:00";
    let tracks = parse_cue_impl(text, &vec![bin("1.bin", 70), bin("2.bin", 30)]);
    assert_eq!(rows(&tracks), vec![row(2, "2.bin", 0, 70, 30)]);
}

#[test]
fn unresolved_files_are_skipped() {
    let text = "FILE \"1.bin\" BINARY\nTRACK 01 AUDIO\nINDEX 01 00:00:01\n\
        FILE \"2.bin\" BINARY\nTRACK 02 AUDIO\nINDEX 01 00:00:02";
    let tracks = parse_cue_impl(text, &vec![None, bin("2.bin", 30)]);
    assert_eq!(rows(&tracks), vec![row(2, "2.bin", 2 * 2352, 2, 28)]);
    assert!(parse_cue_impl(text, &vec![None, None]).is_empty());
    assert!(parse_cue_impl(text, &Vec::new()).is_empty());
}

#[test]
fn tracks_share_a_file() {
    let text = "FILE \"a.bin\" BINARY\nTRACK 01 AUDIO\nINDEX 01 00:00:00\nTRACK 02 AUDIO\nINDEX 01 00:04:00\n\
        FILE \"b.bin\" BINARY\nTRACK 03 AUDIO\nINDEX 01 00:00:10";
    let tracks = parse_cue_impl(text, &vec![bin("a.bin", 1000), bin("b.bin", 50)]);
    assert_eq!(
        rows(&tracks),
        vec![
            row(1, "a.bin", 0, 0, 300),
            row(2, "a.bin", 705_600, 300, 700),
            row(3, "b.bin", 23_520, 1010, 40),
        ]
    );
}

#[test]
fn data_track_ends_the_track_before_it() {
    let text = "FILE \"a.bin\" BINARY\nTRACK 01 AUDIO\nINDEX 01 00:00:05\nTRACK 02 MODE1/2352\nINDEX 01 00:00:20";
    let tracks = parse_cue_impl(text, &vec![bin("a.bin", 100)]);
    assert_eq!(rows(&tracks), vec![row(1, "a.bin", 5 * 2352, 5, 15)]);
}

#[test]
fn positions_that_do_not_ascend() {
    let text = "FILE \"a.bin\" BINARY\nTRACK 01 AUDIO\nINDEX 01 00:00:20\nTRACK 02 AUDIO\nINDEX 01 00:00:05\n\
        TRACK 03 AUDIO\nTRACK 04 AUDIO\nINDEX 01 00:02:00\nTRACK 05 AUDIO\nINDEX 01 00:02:00";
    let tracks = parse_cue_impl(text, &vec![bin("a.bin", 100)]);
    assert_eq!(
        rows(&tracks),
        vec![
            row(1, "a.bin", 20 * 2352, 20, 80),
            row(2, "a.bin", 5 * 2352, 5, 95),
            row(3, "a.bin", 0, 0, 100),
            row(4, "a.bin", 150 * 2352, 150, 0),
            row(5, "a.bin", 150 * 2352, 150, 0),
        ]
    );
}

#[test]
fn cdg_beside_a_file_is_for_its_only_track() {
    let with_cdg = |name: &str| {
        let mut file = bin(name, 100).unwrap();
        file.cdg_path = Some(PathBuf::from("x.cdg"));
        file.cdg_zip = Some(ZipEntry { zip_path: PathBuf::from("z"), data_start: 1, data_size: 2 });
        Some(file)
    };
    let text = "FILE \"1.bin\" BINARY\nTRACK 01 AUDIO\nINDEX 01 00:00:00\n\
        FILE \"2.bin\" BINARY\nTRACK 02 AUDIO\nINDEX 01 00:00:00\nTRACK 03 AUDIO\nINDEX 01 00:00:50";
    let tracks = parse_cue_impl(text, &vec![with_cdg("1.bin"), with_cdg("2.bin")]);
    assert_eq!(tracks.len(), 3);
    assert_eq!(tracks[0].cdg_path, Some(PathBuf::from("x.cdg")));
    assert_eq!(tracks[0].cdg_zip.as_ref().unwrap().data_start, 1);
    for track in &tracks[1..] {
        assert!(track.cdg_path.is_none() && track.cdg_zip.is_none());
    }
}

#[test]
fn files_without_tracks_take_no_space() {
    let text = "FILE \"1.bin\" BINARY\nFILE \"2.bin\" BINARY\nTRACK xx AUDIO\n\
        FILE \"3.bin\" BINARY\nTRACK 01 AUDIO\nINDEX 01 00:00:01";
    let tracks = parse_cue_impl(text, &vec![bin("1.bin", 500), bin("2.bin", 70), bin("3.bin", 30)]);
    assert_eq!(rows(&tracks), vec![row(1, "3.bin", 2352, 1, 29)]);
}

#[test]
fn multi_bin_sheet_with_pregaps_and_data() {
    let text = "REM disc\nFILE \"1.bin\" BINARY\nTRACK 01 MODE1/2352\nINDEX 01 00:00:00\n\
        FILE \"2.bin\" BINARY\nTRACK 02 AUDIO\nINDEX 00 00:00:00\nINDEX 01 00:02:00\nINDEX 02 00:03:00\n\
        FILE \"3.bin\" BINARY\nTRACK 03 AUDIO";
    let tracks = parse_cue_impl(text, &vec![bin("1.bin", 70), bin("2.bin", 300), bin("3.bin", 40)]);
    assert_eq!(rows(&tracks), vec![row(2, "2.bin", 150 * 2352, 220, 150), row(3, "3.bin", 0, 370, 40)]);
}

#[test]
fn sheets_in_a_row() {
    let two = "FILE \"3.bin\" BINARY\nTRACK 03 AUDIO\nINDEX 01 00:00:03\nTRACK 04 AUDIO\nINDEX 01 00:00:09";
    for one in [
        "FILE \"1.bin\" BINARY\nTRACK 01 AUDIO\nINDEX 01 00:00:01\nFILE \"2.bin\" BINARY\nTRACK 02 AUDIO",
        "FILE \"1.bin\" BINARY\nTRACK 01 AUDIO\nINDEX 01 00:00:01\nFILE \"2.bin\" BINARY\nTRACK 02 AUDIO\n",
    ] {
        let first = parse_cue_impl(one, &vec![bin("1.bin", 10), bin("2.bin", 20)]);
        let second = parse_cue_impl(two, &vec![bin("3.bin", 40)]);
        let joined = format!("{}\n{}", one, two);
        let both = parse_cue_impl(&joined, &vec![bin("1.bin", 10), bin("2.bin", 20), bin("3.bin", 40)]);
        let mut expected = rows(&first);
        expected.extend(rows(&second).into_iter().map(|(n, p, o, sector, len)| (n, p, o, sector + 30, len)));
        assert_eq!(rows(&both), expected);
    }
}

#[test]
fn lines_of_other_kinds_change_nothing() {
    let plain = ["FILE \"1.bin\" BINARY", "TRACK 01 AUDIO", "INDEX 01 00:00:01", "TRACK 02 AUDIO", "INDEX 01 00:00:09"];
    let files = vec![bin("1.bin", 30)];
    let expected = rows(&parse_cue_impl(&plain.join("\n"), &files));
    assert_eq!(expected, vec![row(1, "1.bin", 2352, 1, 8), row(2, "1.bin", 9 * 2352, 9, 21)]);
    for other in ["", "  \r", "REM Größe", "TITLE \"FILE x\"", "PREGAP 00:02:00", "INDEX 01", "FILES"] {
        for at in 0..=plain.len() {
            let mut lines = plain.to_vec();
            lines.insert(at, other);
            assert_eq!(rows(&parse_cue_impl(&lines.join("\n"), &files)), expected, "{:?} at {}", other, at);
        }
    }
}

#[test]
fn tracks_without_number_are_dropped() {
    let text = "FILE \"1.bin\" BINARY\nTRACK xx AUDIO\nINDEX 01 00:00:00\nTRACK 02 AUDIO";
    let tracks = parse_cue_impl(text, &vec![bin("1.bin", 50)]);
    assert_eq!(rows(&tracks), vec![row(2, "1.bin", 0, 0, 50)]);
}

#[test]
fn last_index_counts() {
    let text = "FILE \"1.bin\" BINARY\nINDEX 01 00:00:33\nTRACK 01 AUDIO\nINDEX 01 00:00:03\nINDEX 02 00:00:09\nINDEX 01 00:00:04";
    let tracks = parse_cue_impl(text, &vec![bin("1.bin", 50)]);
    assert_eq!(rows(&tracks), vec![row(1, "1.bin", 4 * 2352, 4, 46)]);
}

#[test]
fn index_behind_the_file() {
    let text = "FILE \"1.bin\" BINARY\nTRACK 01 AUDIO\nINDEX 01 00:01:00";
    let tracks = parse_cue_impl(text, &vec![bin("1.bin", 50)]);
    assert_eq!(rows(&tracks), vec![row(1, "1.bin", 75 * 2352, 75, 0)]);
}

#[test]
fn file_lines_without_name() {
    // The file stays in force where no track of it has begun.
    let text = "FILE \"1.bin\" BINARY\nFILE nothing\nTRACK 01 AUDIO";
    assert_eq!(rows(&parse_cue_impl(text, &vec![bin("1.bin", 5)])), vec![row(1, "1.bin", 0, 0, 5)]);
    // After a track it does not.
    let text = "FILE \"1.bin\" BINARY\nTRACK 01 AUDIO\nFILE nothing\nTRACK 02 AUDIO";
    assert_eq!(rows(&parse_cue_impl(text, &vec![bin("1.bin", 5)])), vec![row(1, "1.bin", 0, 0, 5)]);
}

#[test]
fn tracks_without_file() {
    assert!(parse_cue_impl("TRACK 01 AUDIO\nINDEX 01 00:00:00", &Vec::new()).is_empty());
    assert!(parse_cue_impl("", &vec![bin("1.bin", 5)]).is_empty());
}

#[test]
fn source_does_not_change_layout() {
    let text = "FILE \"1.bin\" BINARY\nTRACK 01 AUDIO\nINDEX 01 00:00:07\nFILE \"2.bin\" BINARY\nTRACK 02 AUDIO";
    let disk = parse_cue_impl(text, &vec![bin("1.bin", 40), bin("2.bin", 60)]);
    let zipped: Vec<Option<ResolvedBin>> = vec![40u64, 60]
        .into_iter()
        .map(|n| {
            Some(ResolvedBin {
                bin_path: None,
                bin_zip: Some(ZipEntry { zip_path: PathBuf::from("z"), data_start: n, data_size: n * 2352 }),
                size_sectors: n,
                cdg_path: Some(PathBuf::from("c")),
                cdg_zip: None,
            })
        })
        .collect();
    let zipped = parse_cue_impl(text, &zipped);
    assert_eq!(disk.len(), zipped.len());
    for (d, z) in disk.iter().zip(zipped.iter()) {
        assert_eq!(
            (d.number, d.bin_audio_offset, d.abs_sector, d.sectors),
            (z.number, z.bin_audio_offset, z.abs_sector, z.sectors)
        );
        assert_eq!(z.cdg_path, Some(PathBuf::from("c")));
        assert!(z.bin_path.is_none() && z.bin_zip.is_some());
    }
}

#[test]
fn sheets_that_do_not_fit() {
    let text = "FILE \"1.bin\" BINARY\nTRACK 01 AUDIO\nINDEX 00 18446744073709551615:00:00";
    assert!(try_parse_cue(text, &vec![bin("1.bin", 5)]).is_none());
    let text = "FILE \"1.bin\" BINARY\nTRACK 01 AUDIO\nINDEX 01 0:0:18446744073709551615";
    assert!(try_parse_cue(text, &vec![bin("1.bin", 5)]).is_none());
    assert!(try_parse_cue(text, &vec![None]).is_some());
    let text = "FILE \"1.bin\" BINARY\nTRACK 01 AUDIO\nFILE \"2.bin\" BINARY\nTRACK 02 AUDIO";
    assert!(try_parse_cue(text, &vec![bin("1.bin", u64::MAX), bin("2.bin", 1)]).is_none());
    assert!(!check_sheet(text, &vec![bin("1.bin", u64::MAX), bin("2.bin", 1)]));
    let tracks = try_parse_cue(text, &vec![bin("1.bin", u64::MAX), bin("2.bin", 0)]).unwrap();
    assert_eq!(rows(&tracks), vec![row(1, "1.bin", 0, 0, u64::MAX), row(2, "2.bin", 0, u64::MAX, 0)]);
}

#[test]
fn unresolved_file_is_skipped_with_its_lines() {
    let one = "FILE \"1.bin\" BINARY\nTRACK 01 AUDIO\nINDEX 01 00:00:01\n";
    let two = "FILE \"2.bin\" BINARY\nTRACK 02 MODE1/2352\nTRACK 03 AUDIO\nINDEX 01 00:00:09\n";
    let three = "FILE \"3.bin\" BINARY\nTRACK 04 AUDIO\nINDEX 01 00:00:02\n";
    let with = format!("{}{}{}", one, two, three);
    let without = format!("{}{}", one, three);
    let tracks = parse_cue_impl(&with, &vec![bin("1.bin", 10), None, bin("3.bin", 30)]);
    let expected = parse_cue_impl(&without, &vec![bin("1.bin", 10), bin("3.bin", 30)]);
    assert_eq!(rows(&tracks), rows(&expected));
    assert_eq!(rows(&tracks), vec![row(1, "1.bin", 2352, 1, 9), row(4, "3.bin", 4704, 12, 28)]);
}
