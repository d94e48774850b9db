//! What the library reads from a path: its extension and the prefix of its
//! file name.
use vstd::prelude::*;

verus! {

/// The extension of the path's file name, as `camino` reads it.
pub uninterp spec fn path_extension(path: Seq<char>) -> Option<Seq<char>>;

/// The file name of the path up to its first inner `.`, as `camino` reads it.
pub uninterp spec fn path_prefix(path: Seq<char>) -> Option<Seq<char>>;

pub open spec fn opt_text(r: Option<String>) -> Option<Seq<char>> {
    match r {
        Some(s) => Some(s@),
        None => None,
    }
}

/// Relies on `camino::Utf8Path::extension`: the part of the file name after
/// its last `.`, if any.
#[verifier::external_body]
pub(crate) fn extension_of(path: &str) -> (r: Option<String>)
    ensures
        opt_text(r) == path_extension(path@),
{
    camino::Utf8Path::new(path).extension().map(|e| e.to_string())
}

/// Relies on `camino::Utf8Path::file_prefix`: the file name up to its first
/// `.` after the first character.
#[verifier::external_body]
pub(crate) fn prefix_of(path: &str) -> (r: Option<String>)
    ensures
        opt_text(r) == path_prefix(path@),
{
    camino::Utf8Path::new(path).file_prefix().map(|e| e.to_string())
}

} // verus!
