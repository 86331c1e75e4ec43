use vstd::prelude::*;

use crate::paths::{join_path, joined_path};
use crate::storage::path_exists;

verus! {

/// Where projects live by default and where the index keeps its files.
#[derive(Debug, Clone, PartialEq, Eq)]
pub struct Config {
    pub default_projects_dir: String,
    pub mangit_dir: String,
}

/// Relies on dirs::home_dir: the current user's home directory, when one can
/// be found, as a string. Nothing is promised about its value.
#[verifier::external_body]
fn home_dir() -> Option<String> {
    dirs::home_dir().map(|h| h.to_string_lossy().into_owned())
}

impl Config {
    /// A configuration with the given directories.
    pub fn new(default_projects_dir: String, mangit_dir: String) -> (r: Self)
        ensures
            r.default_projects_dir == default_projects_dir,
            r.mangit_dir == mangit_dir,
    {
        Config { default_projects_dir, mangit_dir }
    }

    /// The directory that holds the configuration and the index.
    pub fn mangit_dir_path(&self) -> (r: String)
        ensures
            r@ == self.mangit_dir@,
    {
        self.mangit_dir.clone()
    }

    /// The configuration file inside that directory.
    pub fn config_path(&self) -> (r: String)
        ensures
            r@ == joined_path(self.mangit_dir@, "config.json"@),
    {
        join_path(self.mangit_dir.as_str(), "config.json")
    }

    /// The file that holds the persisted index.
    pub fn repos_path(&self) -> (r: String)
        ensures
            r@ == joined_path(self.mangit_dir@, "repos.json"@),
    {
        join_path(self.mangit_dir.as_str(), "repos.json")
    }
}

/// Relies on shellexpand::tilde: a leading `~` replaced by the home
/// directory. Nothing is promised about the result, which depends on the
/// environment.
#[verifier::external_body]
pub(crate) fn expand_tilde(path: &str) -> String {
    shellexpand::tilde(path).into_owned()
}

/// Relies on std::path::Path::is_dir: whether the file system holds a
/// directory at `path` when it is asked. Nothing is promised about the answer.
#[verifier::external_body]
fn path_is_dir(path: &str) -> bool {
    std::path::Path::new(path).is_dir()
}

/// Whether `path` (a leading `~` standing for the home directory) is a Git
/// working copy: it exists and holds a `.git` directory. The answer comes from
/// the file system; the call itself never fails.
pub fn is_git_repo(path: &str) -> (r: Result<bool, crate::storage::StorageError>)
    ensures
        r is Ok,
{
    let expanded = expand_tilde(path);
    if !path_exists(expanded.as_str()) {
        return Ok(false);
    }
    let git_dir = join_path(expanded.as_str(), ".git");
    Ok(path_exists(git_dir.as_str()) && path_is_dir(git_dir.as_str()))
}

impl Default for Config {
    /// The home directory (or `~` when it is unknown) for projects, and its
    /// `.mangit` subdirectory for the index.
    fn default() -> (r: Self)
        ensures
            exists|home: Seq<char>|
                r.default_projects_dir@ == home && r.mangit_dir@ == joined_path(home, ".mangit"@),
    {
        let home = match home_dir() {
            Some(h) => h,
            None => "~".to_owned(),
        };
        let mangit_dir = join_path(home.as_str(), ".mangit");
        Config { default_projects_dir: home, mangit_dir }
    }
}

} // verus!
