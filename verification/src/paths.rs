//! File system paths, handled as strings. The path grammar is the standard
//! library's; each function here names its result and restates no rule.
use vstd::prelude::*;

verus! {

/// What `Path::extension` gives for a path (`None` when there is no file name
/// or no `.` after its first character), as text.
pub uninterp spec fn path_extension_of(path: Seq<char>) -> Option<Seq<char>>;

/// What `Path::file_stem` gives for a path, as text.
pub uninterp spec fn path_file_stem_of(path: Seq<char>) -> Option<Seq<char>>;

/// What `Path::parent` gives for a path, as text.
pub uninterp spec fn path_parent_of(path: Seq<char>) -> Option<Seq<char>>;

/// What `Path::join` gives for a directory and a file name, as text.
pub uninterp spec fn path_join_of(dir: Seq<char>, name: Seq<char>) -> Seq<char>;

/// `Path::extension` of `path`, converted to a string; an extension that is
/// not valid Unicode counts as absent, as in `OsStr::to_str`.
#[verifier::external_body]
pub(crate) fn path_extension(path: &str) -> (r: Option<String>)
    ensures
        match r {
            Some(e) => path_extension_of(path@) == Some(e@),
            None => path_extension_of(path@) is None,
        },
{
    std::path::Path::new(path).extension().and_then(|e| e.to_str()).map(|e| e.to_string())
}

/// `Path::file_stem` of `path`, converted to a string.
#[verifier::external_body]
pub(crate) fn path_file_stem(path: &str) -> (r: Option<String>)
    ensures
        match r {
            Some(e) => path_file_stem_of(path@) == Some(e@),
            None => path_file_stem_of(path@) is None,
        },
{
    std::path::Path::new(path).file_stem().and_then(|e| e.to_str()).map(|e| e.to_string())
}

/// `Path::parent` of `path`, converted to a string.
#[verifier::external_body]
pub(crate) fn path_parent(path: &str) -> (r: Option<String>)
    ensures
        match r {
            Some(e) => path_parent_of(path@) == Some(e@),
            None => path_parent_of(path@) is None,
        },
{
    std::path::Path::new(path).parent().and_then(|e| e.to_str()).map(|e| e.to_string())
}

/// `Path::join` of a directory and a file name, converted to a string.
#[verifier::external_body]
pub(crate) fn path_join(dir: &str, name: &str) -> (r: String)
    ensures
        r@ == path_join_of(dir@, name@),
{
    std::path::Path::new(dir).join(name).to_string_lossy().into_owned()
}

/// `Path::is_dir`: whether a directory exists at `path` now. The answer
/// depends on the file system, so nothing is stated of it.
#[verifier::external_body]
pub(crate) fn path_is_dir(path: &str) -> (r: bool) {
    std::path::Path::new(path).is_dir()
}

/// `Path::exists`: whether anything exists at `path` now. The answer depends
/// on the file system, so nothing is stated of it.
#[verifier::external_body]
pub(crate) fn path_exists(path: &str) -> (r: bool) {
    std::path::Path::new(path).exists()
}

} // verus!
