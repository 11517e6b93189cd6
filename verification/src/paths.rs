//! File paths, held as strings.
use vstd::prelude::*;

verus! {

/// The last component of `path` as `std::path::Path::file_name` finds it,
/// or `None` where the path ends in `..` or has no components.
pub uninterp spec fn file_name(path: Seq<char>) -> Option<Seq<char>>;

/// Trusted: `Path::file_name` of `path`, taken as a string; its answer
/// depends on the path alone and is named `file_name(path)`.  A name taken
/// from a `&str` path is valid UTF-8, so its conversion back to `&str` keeps it.
#[verifier::external_body]
pub(crate) fn path_file_name(path: &str) -> (r: Option<&str>)
    ensures
        match r {
            Some(n) => file_name(path@) == Some(n@),
            None => file_name(path@) is None,
        },
{
    match std::path::Path::new(path).file_name() {
        Some(name) => name.to_str(),
        None => None,
    }
}

} // verus!
