//! Karaoke discs: the tracks of CD+G disc images, where their sound and graphics lie, and the
//! library folder in which the discs are kept.
//!
//! Nothing here touches the file system. The functions take what a caller has read and say what
//! to read next; the caller does the reading.
pub mod archive;
pub mod archive_laws;
pub mod config;
pub mod cue;
pub mod cue_laws;
pub mod disc;
pub mod disc_laws;
pub mod laws;
pub mod library;
pub mod library_laws;
pub mod names;
pub mod names_laws;
pub mod order;
pub mod paths;
pub mod sheet;
pub mod sheet_laws;
pub mod text;
pub mod text_laws;
