//! File-system paths are held as text; their structure is read with `std::path::Path`.
use std::path::Path;

use vstd::prelude::*;

verus! {

/// Whether `base` is a component-wise prefix of `path` (`Path::starts_with`).
pub uninterp spec fn spec_path_starts_with(path: Seq<char>, base: Seq<char>) -> bool;

/// `path` without its final component, if it has one (`Path::parent`).
pub uninterp spec fn spec_path_parent(path: Seq<char>) -> Option<Seq<char>>;

/// The final component of `path`, if it is a normal one (`Path::file_name`).
pub uninterp spec fn spec_path_file_name(path: Seq<char>) -> Option<Seq<char>>;

/// The file name of `path` without its extension (`Path::file_stem`).
pub uninterp spec fn spec_path_file_stem(path: Seq<char>) -> Option<Seq<char>>;

/// The extension of the file name of `path` (`Path::extension`).
pub uninterp spec fn spec_path_extension(path: Seq<char>) -> Option<Seq<char>>;

/// Whether `a` sorts before `b` in `Path`'s order (component by component).
pub uninterp spec fn spec_path_less(a: Seq<char>, b: Seq<char>) -> bool;

/// `Path::new(a) < Path::new(b)`. `Path`'s order is a total order (it implements `Ord`):
/// `<` is asymmetric and transitive.
#[verifier::external_body]
pub(crate) fn path_less(a: &str, b: &str) -> (r: bool)
    ensures
        r == spec_path_less(a@, b@),
        r ==> !spec_path_less(b@, a@),
        r ==> forall|c: Seq<char>| #[trigger] spec_path_less(c, a@) ==> spec_path_less(c, b@),
{
    Path::new(a) < Path::new(b)
}

/// `Path::new(path).starts_with(base)`: compares whole components, not characters.
#[verifier::external_body]
pub(crate) fn path_starts_with(path: &str, base: &str) -> (r: bool)
    ensures
        r == spec_path_starts_with(path@, base@),
{
    Path::new(path).starts_with(Path::new(base))
}

/// `Path::new(path).parent()`. The parent is the path with its final component removed,
/// so it is shorter than `path`, and its components are a leading part of those of `path`:
/// `path`, and whatever starts with `path` (`Path::starts_with` compares whole components),
/// starts with the parent too.
#[verifier::external_body]
pub(crate) fn path_parent(path: &str) -> (r: Option<String>)
    ensures
        r is Some <==> spec_path_parent(path@) is Some,
        r matches Some(p) ==> p@ == spec_path_parent(path@)->0 && p@.len() < path@.len(),
        r matches Some(p) ==> spec_path_starts_with(path@, p@),
        r matches Some(p) ==> forall|x: Seq<char>|
            #[trigger] spec_path_starts_with(x, path@) ==> spec_path_starts_with(x, p@),
{
    Path::new(path).parent().map(|p| p.to_string_lossy().into_owned())
}

/// `Path::new(path).file_name()`.
#[verifier::external_body]
pub(crate) fn path_file_name(path: &str) -> (r: Option<String>)
    ensures
        r is Some <==> spec_path_file_name(path@) is Some,
        r matches Some(n) ==> n@ == spec_path_file_name(path@)->0,
{
    Path::new(path).file_name().map(|n| n.to_string_lossy().into_owned())
}

/// `Path::new(path).file_stem()`.
#[verifier::external_body]
pub(crate) fn path_file_stem(path: &str) -> (r: Option<String>)
    ensures
        r is Some <==> spec_path_file_stem(path@) is Some,
        r matches Some(n) ==> n@ == spec_path_file_stem(path@)->0,
{
    Path::new(path).file_stem().map(|n| n.to_string_lossy().into_owned())
}

/// `Path::new(path).extension()`.
#[verifier::external_body]
pub(crate) fn path_extension(path: &str) -> (r: Option<String>)
    ensures
        r is Some <==> spec_path_extension(path@) is Some,
        r matches Some(e) ==> e@ == spec_path_extension(path@)->0,
{
    Path::new(path).extension().map(|e| e.to_string_lossy().into_owned())
}

} // verus!
