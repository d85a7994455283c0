//! The few path operations that the library takes from `relative_path` and
//! from `std::path`.
//!
//! Nothing in this file is proved: each function states what the operation
//! it calls is documented to return, and the rest of the library is verified
//! against those statements.
use vstd::prelude::*;
use relative_path::RelativePath;
use relative_path::RelativePathBuf;
use std::path::Path;

verus! {

/// `relative_path::RelativePath`: a borrowed relative path. What it holds
/// is known through [`relative_path_text`] alone.
#[verifier::external_type_specification]
#[verifier::external_body]
pub struct ExRelativePath(relative_path::RelativePath);

/// `relative_path::RelativePathBuf`: an owned relative path. What it holds
/// is known through [`relative_path_buf_text`] alone.
#[verifier::external_type_specification]
#[verifier::external_body]
pub struct ExRelativePathBuf(relative_path::RelativePathBuf);

/// The text that a borrowed relative path holds.
pub uninterp spec fn relative_path_text(path: &RelativePath) -> Seq<char>;

/// The text that an owned relative path holds.
pub uninterp spec fn relative_path_buf_text(path: RelativePathBuf) -> Seq<char>;

/// The components that `RelativePath::components` yields for a path with
/// this text, each as the string that `Component::as_str` gives.
pub uninterp spec fn relative_components(text: Seq<char>) -> Seq<Seq<char>>;

/// What `RelativePath::extension` returns for a path with this text.
pub uninterp spec fn relative_extension(text: Seq<char>) -> Option<Seq<char>>;

/// What `Path::starts_with` returns for two paths with these texts on the
/// platform the library is built for.
pub uninterp spec fn path_has_prefix(path: Seq<char>, base: Seq<char>) -> bool;

/// What `Path::ends_with` returns for two paths with these texts on the
/// platform the library is built for.
pub uninterp spec fn path_has_suffix(path: Seq<char>, child: Seq<char>) -> bool;

/// The text of what `Path::join` returns for two paths with these texts on
/// the platform the library is built for.
pub uninterp spec fn path_joined(path: Seq<char>, child: Seq<char>) -> Seq<char>;

/// The text of what `Path::parent` returns for a path with this text on
/// the platform the library is built for.
pub uninterp spec fn path_parent_of(path: Seq<char>) -> Option<Seq<char>>;

/// The contents of a vector of strings.
pub open spec fn strings_view(v: Seq<String>) -> Seq<Seq<char>> {
    v.map_values(|s: String| s@)
}

/// The contents of an optional string.
pub open spec fn option_string_view(o: Option<String>) -> Option<Seq<char>> {
    match o {
        Some(s) => Some(s@),
        None => None,
    }
}

/// `RelativePathBuf::from(String)`: wraps the string as it is, so the path
/// holds exactly the text given.
#[verifier::external_body]
pub(crate) fn relative_path_buf_from(text: String) -> (path: RelativePathBuf)
    ensures
        relative_path_buf_text(path) == text@,
{
    RelativePathBuf::from(text)
}

/// `RelativePathBuf::clone`, which the type derives: the copy holds the same
/// text.
pub assume_specification[ <relative_path::RelativePathBuf as Clone>::clone ](
    path: &RelativePathBuf,
) -> (copy: RelativePathBuf)
    ensures
        relative_path_buf_text(copy) == relative_path_buf_text(*path),
;

/// `RelativePathBuf::as_relative_path`: the borrowed path holds the same
/// text as the owned one.
#[verifier::external_body]
pub(crate) fn as_relative_path(path: &RelativePathBuf) -> (borrowed: &RelativePath)
    ensures
        relative_path_text(borrowed) == relative_path_buf_text(*path),
{
    path.as_relative_path()
}

/// `RelativePath::components`, each component turned into an owned string
/// with `Component::as_str`. The result is named, not spelled out.
#[verifier::external_body]
pub(crate) fn component_names(path: &RelativePath) -> (names: Vec<String>)
    ensures
        strings_view(names@) == relative_components(relative_path_text(path)),
{
    path.components().map(|c| c.as_str().to_string()).collect()
}

/// `RelativePath::extension`, as an owned string. The result is named, not
/// spelled out.
#[verifier::external_body]
pub(crate) fn extension_of(path: &RelativePath) -> (extension: Option<String>)
    ensures
        option_string_view(extension) == relative_extension(relative_path_text(path)),
{
    path.extension().map(|e| e.to_string())
}

/// `Path::starts_with` on two paths given as text. The answer depends on
/// the two texts alone, and is named, not spelled out.
#[verifier::external_body]
pub(crate) fn path_starts_with(path: &str, base: &str) -> (prefixed: bool)
    ensures
        prefixed == path_has_prefix(path@, base@),
{
    Path::new(path).starts_with(Path::new(base))
}

/// `Path::ends_with` on two paths given as text. The answer depends on the
/// two texts alone, and is named, not spelled out.
#[verifier::external_body]
pub(crate) fn path_ends_with(path: &str, child: &str) -> (suffixed: bool)
    ensures
        suffixed == path_has_suffix(path@, child@),
{
    Path::new(path).ends_with(Path::new(child))
}

/// `Path::join` on two paths given as text. The result depends on the two
/// texts alone, and is named, not spelled out.
#[verifier::external_body]
pub(crate) fn path_join(path: &str, child: &str) -> (joined: String)
    ensures
        joined@ == path_joined(path@, child@),
{
    Path::new(path).join(child).to_string_lossy().into_owned()
}

/// `Path::parent` on a path given as text. The parent is the path without
/// its final component, so its text is shorter; beyond that the result is
/// named, not spelled out.
#[verifier::external_body]
pub(crate) fn path_parent(path: &str) -> (parent: Option<String>)
    ensures
        option_string_view(parent) == path_parent_of(path@),
        parent matches Some(p) ==> p@.len() < path@.len(),
{
    Path::new(path).parent().map(|p| p.to_string_lossy().into_owned())
}

} // verus!
