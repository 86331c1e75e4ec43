use vstd::prelude::*;

use crate::storage::StorageError;
use crate::text::opt_text;

verus! {

/// What `Path::join` makes of a base path and a relative path, as a string.
pub uninterp spec fn joined_path(base: Seq<char>, rel: Seq<char>) -> Seq<char>;

/// A Unix path is absolute when it starts at the root (this library targets Unix).
pub open spec fn is_absolute_path(p: Seq<char>) -> bool {
    p.len() > 0 && p[0] == '/'
}

/// The canonical form of `path`: itself when absolute, else joined onto the
/// working directory; none when it is relative and the directory is unknown.
pub open spec fn absolute_of(path: Seq<char>, cwd: Option<Seq<char>>) -> Option<Seq<char>> {
    if is_absolute_path(path) {
        Some(path)
    } else {
        match cwd {
            Some(c) => Some(joined_path(c, path)),
            None => None,
        }
    }
}

/// Relies on std::path::Path::is_absolute, as documented for Unix, the only
/// platform this library targets: a path is absolute exactly when it has a
/// root, that is when it begins with `/`.
#[verifier::external_body]
fn path_is_absolute(p: &str) -> (r: bool)
    ensures
        r == is_absolute_path(p@),
{
    std::path::Path::new(p).is_absolute()
}

/// Relies on std::path::Path::join: the path `rel` appended to `base`, turned
/// back into a string; an absolute `rel` replaces `base` (as documented for
/// PathBuf::push).
#[verifier::external_body]
pub(crate) fn join_path(base: &str, rel: &str) -> (r: String)
    ensures
        r@ == joined_path(base@, rel@),
        is_absolute_path(rel@) ==> r@ == rel@,
{
    std::path::Path::new(base).join(rel).to_string_lossy().into_owned()
}

/// Resolves `path` against the working directory `cwd` (none when it could
/// not be determined). An absolute path is returned as it is.
pub fn to_absolute_path(path: &str, cwd: &Option<String>) -> (r: Result<String, StorageError>)
    ensures
        match absolute_of(path@, opt_text(*cwd)) {
            Some(a) => r matches Ok(s) && s@ == a,
            None => r == Err::<String, StorageError>(StorageError::PathResolution),
        },
{
    if path_is_absolute(path) {
        Ok(path.to_owned())
    } else {
        match cwd {
            Some(c) => Ok(join_path(c.as_str(), path)),
            None => Err(StorageError::PathResolution),
        }
    }
}

} // verus!
