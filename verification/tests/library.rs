use cdg_player::library::{contains_cue, DiscEntry, DiscSource, LibraryFile, LibraryScan};
use std::path::PathBuf;

fn file(name: &str) -> LibraryFile {
    LibraryFile {
        path: PathBuf::from(format!("lib/{}", name)),
        name: name.to_string(),
        order: name.as_bytes().to_vec(),
    }
}

fn files(names: &[&str]) -> Vec<LibraryFile> {
    names.iter().map(|n| file(n)).collect()
}

fn shown(disc: &DiscEntry) -> (String, String) {
    (disc.title.clone(), format!("{:?}", disc.source))
}

fn row(title: &str, source: DiscSource) -> (String, String) {
    (title.to_string(), format!("{:?}", source))
}

/// Answers probes until there is none, and gives the paths that were asked about.
fn answer(scan: &mut LibraryScan, with_cue: &[&str]) -> Vec<String> {
    let mut asked: Vec<String> = Vec::new();
    loop {
        let path = match scan.next_probe() {
            Some(DiscSource::Zip(path)) | Some(DiscSource::SevenZ(path)) => path.to_string_lossy().into_owned(),
            Some(DiscSource::Cue(_)) => panic!("a .cue needs no probe"),
            None => return asked,
        };
        scan.probed(with_cue.contains(&path.as_str()));
        asked.push(path);
    }
}

#[test]
fn empty_library() {
    let mut scan = LibraryScan::new();
    assert!(scan.next_probe().is_none());
    scan.probed(true);
    assert!(scan.finish().is_empty());
}

#[test]
fn folder_with_cue() {
    let mut scan = LibraryScan::new();
    scan.enter_folder("Disc".to_string(), files(&["z.cue", "a.zip", "b.cue", "B.CUE", "a.bin"]));
    assert!(scan.next_probe().is_none());
    let discs = scan.finish();
    assert_eq!(discs.len(), 1);
    assert_eq!(shown(&discs[0]), row("Disc", DiscSource::Cue(PathBuf::from("lib/b.cue"))));
}

#[test]
fn cue_extension_is_small() {
    let mut scan = LibraryScan::new();
    scan.enter_folder("Disc".to_string(), files(&["a.CUE", ".cue", "cue"]));
    assert!(scan.next_probe().is_none());
    assert!(scan.finish().is_empty());
}

#[test]
fn folder_with_archives() {
    let mut scan = LibraryScan::new();
    scan.enter_folder("Disc".to_string(), files(&["d.zip", "c.7z", "b.rar", "a.ZIP"]));
    assert_eq!(
        answer(&mut scan, &["lib/c.7z", "lib/d.zip"]),
        vec!["lib/a.ZIP", "lib/c.7z", "lib/d.zip"]
    );
    let found: Vec<(String, String)> = scan.finish().iter().map(shown).collect();
    assert_eq!(
        found,
        vec![
            row("c", DiscSource::SevenZ(PathBuf::from("lib/c.7z"))),
            row("d", DiscSource::Zip(PathBuf::from("lib/d.zip"))),
        ]
    );
}

#[test]
fn zips_of_a_folder_are_all_found() {
    let mut scan = LibraryScan::new();
    scan.enter_folder("s".to_string(), files(&["a.zip", "b.zip"]));
    assert_eq!(answer(&mut scan, &["lib/a.zip", "lib/b.zip"]), vec!["lib/a.zip", "lib/b.zip"]);
    let found: Vec<(String, String)> = scan.finish().iter().map(shown).collect();
    assert_eq!(
        found,
        vec![
            row("a", DiscSource::Zip(PathBuf::from("lib/a.zip"))),
            row("b", DiscSource::Zip(PathBuf::from("lib/b.zip"))),
        ]
    );
}

#[test]
fn seven_z_behind_a_match_is_left_alone() {
    let mut scan = LibraryScan::new();
    scan.enter_folder("s".to_string(), files(&["a.7z", "b.7z", "c.zip", "d.7z", "e.zip"]));
    let with_cue = ["lib/b.7z", "lib/d.7z", "lib/e.zip"];
    assert_eq!(answer(&mut scan, &with_cue), vec!["lib/a.7z", "lib/b.7z", "lib/c.zip", "lib/e.zip"]);
    let titles: Vec<String> = scan.finish().into_iter().map(|d| d.title).collect();
    assert_eq!(titles, vec!["b", "e"]);
}

#[test]
fn folder_without_disc() {
    let mut scan = LibraryScan::new();
    scan.enter_folder("Disc".to_string(), files(&["b.zip", "a.zip"]));
    assert_eq!(answer(&mut scan, &[]), vec!["lib/a.zip", "lib/b.zip"]);
    assert!(scan.finish().is_empty());
}

#[test]
fn files_at_the_top() {
    let mut scan = LibraryScan::new();
    scan.enter_file(file("Some.Disc.zip"));
    assert_eq!(answer(&mut scan, &["lib/Some.Disc.zip"]), vec!["lib/Some.Disc.zip"]);
    scan.enter_file(file("Other.7Z"));
    assert_eq!(answer(&mut scan, &[]), vec!["lib/Other.7Z"]);
    scan.enter_file(file("bare.cue"));
    assert!(scan.next_probe().is_none());
    let discs = scan.finish();
    assert_eq!(discs.len(), 1);
    assert_eq!(shown(&discs[0]), row("Some.Disc", DiscSource::Zip(PathBuf::from("lib/Some.Disc.zip"))));
}

#[test]
fn discs_are_sorted_by_title() {
    let titles = ["b", "B", "", "é", "ab", "a", "b", "\u{1f600}", "\u{fffd}"];
    let mut scan = LibraryScan::new();
    for (i, title) in titles.iter().enumerate() {
        scan.enter_folder(title.to_string(), files(&[format!("{}.cue", i).as_str()]));
    }
    let found: Vec<(String, String)> = scan.finish().iter().map(shown).collect();
    let mut expected: Vec<(String, String)> = titles
        .iter()
        .enumerate()
        .map(|(i, t)| row(t, DiscSource::Cue(PathBuf::from(format!("lib/{}.cue", i)))))
        .collect();
    expected.sort_by(|a, b| a.0.cmp(&b.0));
    assert_eq!(found, expected);
}

#[test]
fn names_of_cue_entries() {
    let names = |list: &[&str]| -> Vec<String> { list.iter().map(|n| n.to_string()).collect() };
    assert!(contains_cue(&names(&["a.bin", "dir/A.CuE"])));
    assert!(contains_cue(&names(&[".cue"])));
    assert!(!contains_cue(&names(&["a.cue.bak", "cue", "a.cu"])));
    assert!(!contains_cue(&names(&[])));
}
