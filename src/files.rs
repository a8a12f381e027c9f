//! Which entries of a walk over the source tree are kept.
use vstd::prelude::*;

use glob_match::glob_match;

verus! {

/// The pattern a kept file's path matches: a C or C++ source or header, or
/// an Arduino sketch, anywhere below the root.
pub const C_FILE_GLOB: &'static str = "*/**/*.{c,cpp,h,hpp,ino}";

/// Whether `path` matches the glob pattern `glob`.
pub uninterp spec fn glob_matches(glob: Seq<char>, path: Seq<char>) -> bool;

/// Relies on `glob_match::glob_match`: whether the path matches the
/// pattern, which depends on the two strings alone. Only the library's own
/// pattern is handed to it.
#[verifier::external_body]
fn path_matches_glob(glob: &str, path: &str) -> (r: bool)
    requires
        glob@ == C_FILE_GLOB@,
    ensures
        r == glob_matches(glob@, path@),
{
    glob_match(glob, path)
}

/// Whether a walk entry is kept: directories always are, so that the walk
/// goes through them; a file is kept when its path is valid text that
/// matches the source-file pattern.
pub fn filter_c_files(path: Option<&str>, is_dir: bool) -> (r: bool)
    ensures
        r == (is_dir || (path.is_some() && glob_matches(C_FILE_GLOB@, path.unwrap()@))),
{
    if is_dir {
        return true;
    }
    match path {
        Some(p) => path_matches_glob(C_FILE_GLOB, p),
        None => false,
    }
}

} // verus!
