use cdg_player::config::{Config, SaveAction};
use std::path::PathBuf;

fn written(action: SaveAction) -> String {
    match action {
        SaveAction::Write(text) => text,
        SaveAction::Remove => panic!("nothing is written"),
    }
}

#[test]
fn library_is_saved_and_loaded() {
    for path in ["/music/karaoke", "rel/dir with space", "/müsic/日本"] {
        let mut config = Config { library_path: None };
        let text = written(config.set_library(PathBuf::from(path)));
        assert_eq!(text, path);
        assert_eq!(config.library_path, Some(PathBuf::from(path)));
        assert_eq!(written(config.save()), path);
        let loaded = Config::load(Some(Config::saved_path(&text)), true);
        assert_eq!(loaded.library_path, Some(PathBuf::from(path)));
    }
}

#[test]
fn white_space_around_the_path_is_dropped() {
    assert_eq!(Config::saved_path(" /a b\n"), PathBuf::from("/a b"));
    assert_eq!(Config::saved_path(""), PathBuf::from(""));
}

#[test]
fn missing_folder_is_forgotten() {
    assert_eq!(Config::load(Some(PathBuf::from("/gone")), false).library_path, None);
    assert_eq!(Config::load(None, false).library_path, None);
}

#[test]
fn no_library_removes_the_file() {
    let config = Config { library_path: None };
    assert!(matches!(config.save(), SaveAction::Remove));
}
