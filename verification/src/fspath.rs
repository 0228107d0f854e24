//! File-system paths, held as their text. What a path operation of std gives
//! for given paths is named here; each name is tied to the call that computes it.
use vstd::prelude::*;
use std::path::Path;

verus! {

/// Whether `Path::new(a) == Path::new(b)` (std compares paths by components).
pub uninterp spec fn path_eq(a: Seq<char>, b: Seq<char>) -> bool;

/// Whether `Path::new(p).starts_with(base)` (a prefix by whole components).
pub uninterp spec fn path_starts_with(p: Seq<char>, base: Seq<char>) -> bool;

/// The text of `Path::new(p).parent()`, if there is one.
pub uninterp spec fn path_parent(p: Seq<char>) -> Option<Seq<char>>;

/// The text of `Path::new(base).join(rest)`.
pub uninterp spec fn path_join(base: Seq<char>, rest: Seq<char>) -> Seq<char>;

/// The text of `Path::new(p).file_name()`, if there is one.
pub uninterp spec fn path_file_name(p: Seq<char>) -> Option<Seq<char>>;

/// Two paths name the same place: the same text, or equal as std paths.
pub open spec fn same_path(a: Seq<char>, b: Seq<char>) -> bool {
    a == b || path_eq(a, b)
}

/// `p` lies at or below `base`: the same text, or `base` is a component prefix of `p`.
pub open spec fn is_under(p: Seq<char>, base: Seq<char>) -> bool {
    p == base || path_starts_with(p, base)
}

/// The view of an optional string.
pub open spec fn opt_view(o: Option<String>) -> Option<Seq<char>> {
    match o {
        Some(s) => Some(s@),
        None => None,
    }
}

/// Calls `PartialEq` on `std::path::Path`. Claims that the result is the
/// named `path_eq`, and that a path equals itself (std's `Path` is `Eq`).
#[verifier::external_body]
pub(crate) fn paths_equal(a: &str, b: &str) -> (r: bool)
    ensures
        r == path_eq(a@, b@),
        a@ == b@ ==> r,
{
    Path::new(a) == Path::new(b)
}

/// Calls `Path::starts_with`. Claims that the result is the named
/// `path_starts_with`, and that every path starts with itself (std documents
/// the test as a prefix test over whole components).
#[verifier::external_body]
pub(crate) fn path_has_prefix(p: &str, base: &str) -> (r: bool)
    ensures
        r == path_starts_with(p@, base@),
        p@ == base@ ==> r,
{
    Path::new(p).starts_with(Path::new(base))
}

/// Calls `Path::parent` and turns the parent into text. Claims that the
/// result is the named `path_parent`, and that a parent is shorter than the
/// path (std documents it as the path without its final component, a
/// sub-slice of the path).
#[verifier::external_body]
pub(crate) fn parent_of(p: &str) -> (r: Option<String>)
    ensures
        opt_view(r) == path_parent(p@),
        r matches Some(q) ==> q@.len() < p@.len(),
{
    Path::new(p).parent().map(|q| q.to_string_lossy().into_owned())
}

/// Calls `Path::join` and turns the joined path into text. Claims only that
/// the result is the named `path_join`.
#[verifier::external_body]
pub(crate) fn join_path(base: &str, rest: &str) -> (r: String)
    ensures
        r@ == path_join(base@, rest@),
{
    Path::new(base).join(rest).to_string_lossy().into_owned()
}

/// Calls `Path::file_name` and turns the name into text. Claims only that the
/// result is the named `path_file_name`.
#[verifier::external_body]
pub(crate) fn file_name_of(p: &str) -> (r: Option<String>)
    ensures
        opt_view(r) == path_file_name(p@),
{
    Path::new(p).file_name().map(|n| n.to_string_lossy().into_owned())
}

} // verus!
