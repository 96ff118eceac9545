//! Filesystem paths carried through the library.
use vstd::prelude::*;

verus! {

#[verifier::external_type_specification]
#[verifier::external_body]
pub struct ExPathBuf(std::path::PathBuf);

/// `Path::file_name` of `path`: its last component, when that is a name
/// (not `..`, and not the root or an empty path).
pub uninterp spec fn path_file_name(path: Seq<char>) -> Option<Seq<char>>;

/// `Path::new(path).file_name()` as a `String`; the result is named by
/// `path_file_name`. (A name taken from a `&str` is always valid UTF-8.)
#[verifier::external_body]
pub fn file_name_of(path: &str) -> (r: Option<String>)
    ensures
        crate::rules::opt_view(r) == path_file_name(path@),
{
    std::path::Path::new(path).file_name().and_then(|n| n.to_str()).map(|n| n.to_string())
}

} // verus!
