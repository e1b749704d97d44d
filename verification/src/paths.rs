//! File system paths, carried through the library as opaque values.
use vstd::prelude::*;
use vstd::utf8::{decode_utf8, encode_utf8, valid_utf8};
use std::path::{Path, PathBuf};

verus! {

/// `std::path::PathBuf`, an owned path.
#[verifier::external_type_specification]
#[verifier::external_body]
pub struct ExPathBuf(PathBuf);

/// The bytes that a path holds: those of `std::ffi::OsStr::as_encoded_bytes`, which encode every
/// Unicode string as its UTF-8 bytes.
pub uninterp spec fn path_bytes(path: PathBuf) -> Seq<u8>;

/// `std::path::Path`, a borrowed path.
#[verifier::external_type_specification]
#[verifier::external_body]
pub struct ExPath(Path);

/// The bytes that a borrowed path holds, as `path_bytes` gives those of an owned one.
pub uninterp spec fn borrowed_path_bytes(path: &Path) -> Seq<u8>;

/// The bytes that separate the parts of a path on some platform: a slash, a backslash, a colon.
pub open spec fn is_separator(byte: u8) -> bool {
    byte == 0x2f || byte == 0x5c || byte == 0x3a
}

/// Whether a path starts with the name of a server or a device on some platform.
pub open spec fn names_a_server(bytes: Seq<u8>) -> bool {
    bytes.len() > 1 && is_separator(bytes[0]) && is_separator(bytes[1])
}

/// Whether the extension of a path, which may be empty, begins behind the dot at `dot` on every
/// platform: the dot is the last one and stands in the file name, behind more than a single dot.
pub open spec fn extension_behind(bytes: Seq<u8>, dot: int) -> bool {
    &&& 0 < dot < bytes.len()
    &&& bytes[dot] == 0x2e
    &&& !is_separator(bytes[dot - 1])
    &&& bytes[dot - 1] == 0x2e ==> dot > 1 && !is_separator(bytes[dot - 2])
    &&& forall|i: int| dot < i < bytes.len() ==> #[trigger] bytes[i] != 0x2e && !is_separator(bytes[i])
    &&& !names_a_server(bytes)
}

/// Whether a path has no extension on any platform: the part of it from `from` on, behind its last
/// slash, names a file, and holds no dot or only a leading one.
pub open spec fn no_extension(bytes: Seq<u8>, from: int) -> bool {
    &&& 0 <= from < bytes.len()
    &&& from > 0 ==> bytes[from - 1] == 0x2f
    &&& bytes[from] == 0x2e ==> from + 1 < bytes.len()
    &&& forall|i: int| from < i < bytes.len() ==> #[trigger] bytes[i] != 0x2e && bytes[i] != 0x2f
    &&& !is_separator(bytes.last())
    &&& !names_a_server(bytes)
}

/// Whether `changed` is the path `bytes` with the extension `extension`, where all platforms agree
/// on what that is: it takes the place of the extension that is there, or is added behind a dot.
pub open spec fn extension_set(bytes: Seq<u8>, extension: Seq<char>, changed: Seq<u8>) -> bool {
    &&& forall|dot: int| #[trigger]
        extension_behind(bytes, dot) ==> changed == bytes.take(dot + 1) + encode_utf8(extension)
    &&& forall|from: int| #[trigger]
        no_extension(bytes, from) ==> changed == bytes.push(0x2e) + encode_utf8(extension)
}

/// `PathBuf::clone` returns a path that is the same as the one cloned.
pub assume_specification[ <PathBuf as Clone>::clone ](path: &PathBuf) -> (copy: PathBuf)
    ensures
        copy == *path,
;

/// `Path::to_path_buf`: an owned path of the same bytes.
#[verifier::external_body]
pub(crate) fn owned_path(path: &Path) -> (owned: PathBuf)
    ensures
        path_bytes(owned) == borrowed_path_bytes(path),
{
    path.to_path_buf()
}

/// `PathBuf::from` on a string slice: the path made of exactly that text.
#[verifier::external_body]
pub(crate) fn path_from_text(text: &str) -> (path: PathBuf)
    ensures
        path_bytes(path) == encode_utf8(text@),
{
    PathBuf::from(text)
}

/// `Path::with_extension`, which replaces the extension of the path, or adds one where the path
/// has none. Of a path that names no file, or that the platforms take apart in different ways,
/// nothing is stated.
#[verifier::external_body]
pub(crate) fn with_extension(path: &PathBuf, extension: &str) -> (changed: PathBuf)
    requires
        extension@.len() > 0,
        forall|i: int| 0 <= i < extension@.len() ==> #[trigger] extension@[i] != '/' && extension@[i] != '\\',
    ensures
        extension_set(path_bytes(*path), extension@, path_bytes(changed)),
{
    path.with_extension(extension)
}

/// Whether `text` is the text of a path: all of it where the path is valid UTF-8. Otherwise the
/// bytes that are no UTF-8 are replaced, and the valid text that the path starts with is kept.
pub open spec fn is_text_of(text: Seq<char>, bytes: Seq<u8>) -> bool {
    &&& valid_utf8(bytes) ==> text == decode_utf8(bytes)
    &&& forall|n: int|
        0 <= n <= bytes.len() && valid_utf8(#[trigger] bytes.take(n)) ==> decode_utf8(
            bytes.take(n),
        ).is_prefix_of(text)
}

/// `Path::to_string_lossy`: the text of a path, with replacement characters for what is no UTF-8.
/// Of what follows the first such bytes nothing is stated: how many replacement characters stand
/// for them depends on the platform.
#[verifier::external_body]
pub(crate) fn path_text(path: &PathBuf) -> (text: String)
    ensures
        is_text_of(text@, path_bytes(*path)),
{
    path.to_string_lossy().into_owned()
}

} // verus!
