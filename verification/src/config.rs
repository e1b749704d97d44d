//! The saved settings of the player.
use vstd::prelude::*;
use vstd::utf8::encode_utf8;
use crate::paths::{is_text_of, path_bytes, path_from_text, path_text};
use crate::text::{chars_of, string_of, trim, trimmed};
use std::path::PathBuf;

verus! {

#[derive(Debug)]
pub struct Config {
    pub library_path: Option<PathBuf>,
}

/// What saving the settings does to the settings file.
#[derive(Debug)]
pub enum SaveAction {
    /// The file is written, with this text.
    Write(String),
    /// The file is removed.
    Remove,
}

/// Whether `action` saves `library_path`: the text of the path is written.
pub open spec fn saves(action: SaveAction, library_path: Option<PathBuf>) -> bool {
    match library_path {
        Some(path) => {
            &&& action is Write
            &&& is_text_of(action->Write_0@, path_bytes(path))
        },
        None => action is Remove,
    }
}

impl Config {
    /// The library folder that the text of a settings file names.
    pub fn saved_path(text: &str) -> (path: PathBuf)
        ensures
            path_bytes(path) == encode_utf8(trim(text@)),
    {
        let chars = chars_of(text);
        let name = string_of(trimmed(&chars));
        path_from_text(&name)
    }

    /// The settings, given the folder that the settings file names, where there is one, and
    /// whether that folder exists.
    pub fn load(saved: Option<PathBuf>, exists: bool) -> (config: Config)
        ensures
            config.library_path == (if exists {
                saved
            } else {
                None
            }),
    {
        if exists {
            Config { library_path: saved }
        } else {
            Config { library_path: None }
        }
    }

    /// What saving the settings does to the settings file.
    pub fn save(&self) -> (action: SaveAction)
        ensures
            saves(action, self.library_path),
    {
        match &self.library_path {
            Some(path) => SaveAction::Write(path_text(path)),
            None => SaveAction::Remove,
        }
    }

    /// Sets the library folder. The settings are then saved as the result says.
    pub fn set_library(&mut self, path: PathBuf) -> (action: SaveAction)
        ensures
            final(self).library_path == Some(path),
            saves(action, Some(path)),
    {
        self.library_path = Some(path);
        self.save()
    }
}

} // verus!
