use cdg_player::sheet::{cue_files, extract_quoted, msf_to_sectors, parse_commands, parse_line, parse_msf, CueCommand, Msf};
use cdg_player::text::chars_of;

fn line(s: &str) -> String {
    format!("{:?}", parse_line(s, &s.to_uppercase()))
}

fn shown(c: CueCommand) -> String {
    format!("{:?}", c)
}

fn index(first: bool, minutes: u64, seconds: u64, frames: u64) -> CueCommand {
    CueCommand::Index { first, position: Msf { minutes, seconds, frames } }
}

#[test]
fn sectors_of_positions() {
    assert_eq!(msf_to_sectors("00:02:00"), Some(150));
    assert_eq!(msf_to_sectors("03:20:15"), Some((3 * 60 + 20) * 75 + 15));
    assert_eq!(msf_to_sectors("1:2:3"), Some(62 * 75 + 3));
    assert_eq!(msf_to_sectors("00:00:99"), Some(99));
    assert_eq!(msf_to_sectors("00:00"), None);
    assert_eq!(msf_to_sectors("00:00:00:00"), None);
    assert_eq!(msf_to_sectors("a:00:00"), None);
    assert_eq!(msf_to_sectors("::"), None);
    assert_eq!(msf_to_sectors(""), None);
    assert_eq!(msf_to_sectors("18446744073709551616:00:00"), None);
}

#[test]
fn positions_of_sectors() {
    for n in [0u64, 74, 75, 4499, 4500, 333_333, 1_000_000_007] {
        let p = Msf { minutes: n / 4500, seconds: (n / 75) % 60, frames: n % 75 };
        assert_eq!(p.checked_sectors(), Some(n));
        assert_eq!(p.to_sectors(), n);
    }
}

#[test]
fn positions_that_do_not_fit() {
    let p = parse_msf(&chars_of("18446744073709551615:00:00")).unwrap();
    assert_eq!(p.minutes, u64::MAX);
    assert_eq!(p.checked_sectors(), None);
    let last = Msf { minutes: 0, seconds: u64::MAX / 75, frames: u64::MAX % 75 };
    assert_eq!(last.checked_sectors(), Some(u64::MAX));
    let over = Msf { minutes: 0, seconds: u64::MAX / 75, frames: u64::MAX % 75 + 1 };
    assert_eq!(over.checked_sectors(), None);
}

#[test]
fn quoted_text() {
    assert_eq!(extract_quoted("FILE \"a é.bin\" BINARY"), Some("a é.bin"));
    assert_eq!(extract_quoted("é\"日本\"x\"y\""), Some("日本"));
    assert_eq!(extract_quoted("\"\""), Some(""));
    assert_eq!(extract_quoted("FILE \"a.bin"), None);
    assert_eq!(extract_quoted("FILE a.bin"), None);
    assert_eq!(extract_quoted(""), None);
}

#[test]
fn lines_of_a_sheet() {
    assert_eq!(line("FILE \"a.bin\" BINARY"), shown(CueCommand::File(Some("a.bin".to_string()))));
    assert_eq!(line("file a.bin"), shown(CueCommand::File(None)));
    assert_eq!(line("FILE"), shown(CueCommand::Other));
    assert_eq!(line("TRACK 01 AUDIO"), shown(CueCommand::Track { number: 1, audio: true }));
    assert_eq!(line("Track 2 audio"), shown(CueCommand::Track { number: 2, audio: true }));
    assert_eq!(line("TRACK 03 MODE1/2352"), shown(CueCommand::Track { number: 3, audio: false }));
    assert_eq!(line("TRACK AUDIO"), shown(CueCommand::Track { number: 0, audio: true }));
    assert_eq!(line("TRACK 4294967296 AUDIO"), shown(CueCommand::Track { number: 0, audio: true }));
    assert_eq!(line("INDEX 01 00:02:00"), shown(index(true, 0, 2, 0)));
    assert_eq!(line("index 00 1:2:3 rest"), shown(index(false, 1, 2, 3)));
    assert_eq!(line("INDEX 1 00:02:00"), shown(index(false, 0, 2, 0)));
    assert_eq!(line("INDEX 01"), shown(CueCommand::Other));
    assert_eq!(line("INDEX 01 00:02"), shown(CueCommand::Other));
    assert_eq!(line("REM FILE \"x\""), shown(CueCommand::Other));
    assert_eq!(line(""), shown(CueCommand::Other));
}

#[test]
fn capital_letters_beyond_ascii() {
    assert_eq!(line("\u{fb01}le \"a\""), shown(CueCommand::File(Some("a".to_string()))));
    assert_eq!(line("\u{131}ndex 01 0:0:1"), shown(index(true, 0, 0, 1)));
}

#[test]
fn commands_line_by_line() {
    let unix = "FILE \"a.bin\" BINARY\n  TRACK 01 AUDIO\n\n    INDEX 01 00:00:10\n";
    let dos = unix.replace('\n', "\r\n");
    let expected = vec![
        shown(CueCommand::File(Some("a.bin".to_string()))),
        shown(CueCommand::Track { number: 1, audio: true }),
        shown(CueCommand::Other),
        shown(index(true, 0, 0, 10)),
    ];
    let read: Vec<String> = parse_commands(unix).into_iter().map(shown).collect();
    assert_eq!(read, expected);
    let read: Vec<String> = parse_commands(&dos).into_iter().map(shown).collect();
    assert_eq!(read, expected);
    assert_eq!(parse_commands("").len(), 0);
    assert_eq!(parse_commands("\n\n").len(), "\n\n".lines().count());
    assert_eq!(parse_commands("a\nb").len(), 2);
}

#[test]
fn names_of_files() {
    let text = "FILE \"one.bin\" BINARY\nTRACK 1 AUDIO\nfile none\nFILE \"two.bin\" BINARY";
    assert_eq!(cue_files(text), vec!["one.bin".to_string(), "two.bin".to_string()]);
    assert!(cue_files("").is_empty());
}

#[test]
fn file_lines_with_accented_names() {
    let list = parse_commands("  file \"Größe ß.bin\" BINARY\n\nTitle \"é\"");
    assert_eq!(list.len(), 3);
    assert!(matches!(&list[0], CueCommand::File(Some(name)) if name == "Größe ß.bin"));
    assert!(matches!(&list[1], CueCommand::Other));
    assert!(matches!(&list[2], CueCommand::Other));
}
