//! What this library takes from the standard library's path handling, and the
//! one question that it puts to the file system. Paths are held as strings.

use vstd::prelude::*;

verus! {

/// `base` with `rel` adjoined by the rules of the platform that this code is
/// built for: `Path::join` on these two paths.
pub uninterp spec fn joined(base: Seq<char>, rel: Seq<char>) -> Seq<char>;

/// The final component of a path, if it has one: `Path::file_name`.
pub uninterp spec fn file_name_of(path: Seq<char>) -> Option<Seq<char>>;

/// A path without its final component, if it has one: `Path::parent`.
pub uninterp spec fn parent_of(path: Seq<char>) -> Option<Seq<char>>;

/// A string as `Debug` prints it, between double quotes and with escapes.
pub uninterp spec fn quoted(text: Seq<char>) -> Seq<char>;

/// The view of an optional string.
pub open spec fn view_of(text: Option<String>) -> Option<Seq<char>> {
    match text {
        Some(s) => Some(s@),
        None => None,
    }
}

/// `Path::join`: the path that results from adjoining `rel` to `base`. Both
/// are strings, so the result is a string too.
#[verifier::external_body]
pub(crate) fn path_join(base: &str, rel: &str) -> (path: String)
    ensures
        path@ == joined(base@, rel@),
{
    std::path::Path::new(base).join(rel).to_string_lossy().into_owned()
}

/// `Path::file_name`: the final component of the path, or nothing where the
/// path ends in `..` or has no component.
#[verifier::external_body]
pub(crate) fn path_file_name(path: &str) -> (name: Option<String>)
    ensures
        view_of(name) == file_name_of(path@),
{
    std::path::Path::new(path).file_name().map(|name| name.to_string_lossy().into_owned())
}

/// `Path::parent`: the path without its final component, or nothing where
/// the path is empty or a root.
#[verifier::external_body]
pub(crate) fn path_parent(path: &str) -> (dir: Option<String>)
    ensures
        view_of(dir) == parent_of(path@),
{
    std::path::Path::new(path).parent().map(|dir| dir.to_string_lossy().into_owned())
}

/// `Path::exists`: whether the file system has an entry at this path right
/// now. The answer depends on the disk, so nothing is claimed of it.
#[verifier::external_body]
pub(crate) fn path_exists(path: &str) -> bool {
    std::path::Path::new(path).exists()
}

/// The `Debug` form of a string, as `format!` produces it.
#[verifier::external_body]
pub(crate) fn debug_quote(text: &str) -> (out: String)
    ensures
        out@ == quoted(text@),
{
    format!("{:?}", text)
}

} // verus!
