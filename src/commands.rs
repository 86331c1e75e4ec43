use vstd::prelude::*;

use crate::repository::{
    filter_stage, pick, repo_models, scored_models, scores_of, search_candidates, search_repositories,
    sorted_as, get_filtered_repositories, RepoModel, Repository,
};
use crate::ordering::{is_desc_order, positions};
use crate::storage::StorageError;
use crate::text::{opt_text, parse_tags, strings_of, tags_of};

verus! {

/// Where a list of repositories is kept between runs. The application keeps it
/// in a file; tests may keep it in memory.
pub trait RepositoryStorage {
    /// The stored list.
    fn load(&self) -> Result<Vec<Repository>, StorageError>;

    /// Replaces the stored list.
    fn save(&self, repositories: &[Repository]) -> Result<(), StorageError>;
}

/// What `Path::file_name` gives for a path: its last component, if any.
pub uninterp spec fn file_name_of(path: Seq<char>) -> Option<Seq<char>>;

/// Relies on std::path::Path::file_name: the last component of the path,
/// none when the path ends in `..` or is a root.
#[verifier::external_body]
fn file_name(path: &str) -> (r: Option<String>)
    ensures
        opt_text(r) == file_name_of(path@),
{
    std::path::Path::new(path).file_name().map(|f| f.to_string_lossy().into_owned())
}

/// The repository described by an `add` request: named `name`, or after the
/// last component of `path` when no name is given (an error when there is
/// none); tagged with the comma-separated `tags`; described by `description`,
/// empty when none is given.
pub fn describe_repository(path: String, name: Option<String>, tags: Option<String>, description: Option<String>) -> (r: Result<Repository, StorageError>)
    ensures
        match r {
            Ok(repo) => {
                &&& repo.path@ == path@
                &&& (match name {
                    Some(n) => repo.name@ == n@,
                    None => file_name_of(path@) == Some(repo.name@),
                })
                &&& strings_of(repo.tags@) == match tags {
                    Some(t) => tags_of(t@),
                    None => Seq::empty(),
                }
                &&& repo.description@ == match description {
                    Some(d) => d@,
                    None => Seq::<char>::empty(),
                }
                &&& repo.language is None
            },
            Err(e) => e == StorageError::NoRepositoryName && name is None && file_name_of(path@) is None,
        },
{
    let repo_name = match name {
        Some(n) => n,
        None => match file_name(path.as_str()) {
            Some(f) => f,
            None => return Err(StorageError::NoRepositoryName),
        },
    };
    let repo_tags = match tags {
        Some(t) => parse_tags(t.as_str()),
        None => Vec::new(),
    };
    let desc = match description {
        Some(d) => d,
        None => String::new(),
    };
    proof {
        assert(strings_of(Seq::<String>::empty()) =~= Seq::<Seq<char>>::empty());
    }
    Ok(Repository::new(repo_name, path, repo_tags, desc))
}

/// Loads the list, appends `repository`, and stores the list again.
pub fn add_repository<S: RepositoryStorage>(storage: &S, repository: Repository) -> (r: Result<(), StorageError>) {
    let mut repositories = match storage.load() {
        Ok(v) => v,
        Err(e) => return Err(e),
    };
    repositories.push(repository);
    storage.save(repositories.as_slice())
}

/// Adds the Git working copy at `path` (a leading `~` standing for the home
/// directory): it must exist (else `PathNotFound`) and hold a `.git`
/// directory (else `NotAGitRepository`). The repository is described as by
/// `describe_repository`, its language detected, and it is appended to the
/// stored list.
pub fn add_with_storage<S: RepositoryStorage>(
    storage: &S,
    path: &str,
    name: Option<String>,
    tags: Option<String>,
    desc: Option<String>,
) -> (r: Result<(), StorageError>) {
    let expanded = crate::config::expand_tilde(path);
    if !crate::storage::path_exists(expanded.as_str()) {
        return Err(StorageError::PathNotFound(path.to_owned()));
    }
    match crate::config::is_git_repo(path) {
        Ok(true) => {},
        Ok(false) => return Err(StorageError::NotAGitRepository(path.to_owned())),
        Err(e) => return Err(e),
    }
    let mut repository = match describe_repository(expanded, name, tags, desc) {
        Ok(r) => r,
        Err(e) => return Err(e),
    };
    repository.detect_language();
    add_repository(storage, repository)
}

/// Position of the first repository called `name`, if any.
pub open spec fn first_named(rs: Seq<RepoModel>, name: Seq<char>, i: int) -> bool {
    &&& 0 <= i < rs.len()
    &&& rs[i].name == name
    &&& forall|j: int| 0 <= j < i ==> rs[j].name != name
}

/// Position `j` is among the listed positions.
pub open spec fn listed_in(done: Seq<usize>, j: int) -> bool {
    exists|k: int| 0 <= k < done.len() && done[k] as int == j
}

/// No repository is called `name`.
pub open spec fn none_named(rs: Seq<RepoModel>, name: Seq<char>) -> bool {
    forall|j: int| 0 <= j < rs.len() ==> rs[j].name != name
}

/// Position of the first repository called `name`.
pub fn find_named(repositories: &Vec<Repository>, name: &str) -> (r: Option<usize>)
    ensures
        match r {
            Some(i) => first_named(repo_models(repositories@), name@, i as int),
            None => none_named(repo_models(repositories@), name@),
        },
{
    let wanted = name.to_owned();
    let mut i: usize = 0;
    while i < repositories.len()
        invariant
            i <= repositories@.len(),
            wanted@ == name@,
            forall|j: int| 0 <= j < i ==> repositories@[j].name@ != name@,
        decreases repositories@.len() - i,
    {
        if repositories[i].name == wanted {
            return Some(i);
        }
        i += 1;
    }
    None
}

/// Removes the first repository called `name_or_id`. Fails, changing
/// nothing, when there is none.
pub fn remove(repositories: &mut Vec<Repository>, name_or_id: &str) -> (r: Result<(), StorageError>)
    ensures
        match r {
            Ok(()) => exists|i: int|
                first_named(repo_models(old(repositories)@), name_or_id@, i)
                    && repo_models(final(repositories)@) == repo_models(old(repositories)@).remove(i),
            Err(e) => (e matches StorageError::RepositoryNotFound(n) && n@ == name_or_id@)
                && none_named(repo_models(old(repositories)@), name_or_id@)
                && final(repositories)@ == old(repositories)@,
        },
{
    match find_named(repositories, name_or_id) {
        Some(i) => {
            let ghost before = repositories@;
            repositories.remove(i);
            proof {
                assert(repo_models(repositories@) =~= repo_models(before).remove(i as int));
            }
            Ok(())
        },
        None => Err(StorageError::RepositoryNotFound(name_or_id.to_owned())),
    }
}

/// Loads the list, removes the first repository called `name_or_id`, and
/// stores the list again. Nothing is stored when it is not found.
pub fn remove_with_storage<S: RepositoryStorage>(storage: &S, name_or_id: &str) -> (r: Result<(), StorageError>) {
    let mut repositories = match storage.load() {
        Ok(v) => v,
        Err(e) => return Err(e),
    };
    match remove(&mut repositories, name_or_id) {
        Ok(()) => storage.save(repositories.as_slice()),
        Err(e) => Err(e),
    }
}

/// Refreshes working copies: the one called `name` when a name is given (an
/// error when there is none), else every one. A working copy whose path no
/// longer exists is skipped; each other one gets its language detected again
/// and its modification time set to now. Returns the positions refreshed.
pub fn update(repositories: &mut Vec<Repository>, name_or_id: Option<String>) -> (r: Result<Vec<usize>, StorageError>)
    ensures
        final(repositories)@.len() == old(repositories)@.len(),
        forall|j: int| 0 <= j < old(repositories)@.len() ==> {
            &&& (#[trigger] final(repositories)@[j]).name == old(repositories)@[j].name
            &&& final(repositories)@[j].path == old(repositories)@[j].path
            &&& final(repositories)@[j].tags == old(repositories)@[j].tags
            &&& final(repositories)@[j].description == old(repositories)@[j].description
        },
        match r {
            Ok(done) => {
                &&& forall|k: int| 0 <= k < done@.len() ==> (#[trigger] done@[k]) < old(repositories)@.len()
                &&& forall|k: int, l: int| 0 <= k < l < done@.len() ==> #[trigger] done@[k] < #[trigger] done@[l]
                &&& forall|j: int| 0 <= j < old(repositories)@.len() && !listed_in(done@, j)
                    ==> #[trigger] final(repositories)@[j] == old(repositories)@[j]
                &&& name_or_id matches Some(n) ==> done@.len() <= 1 && forall|k: int| 0 <= k < done@.len()
                    ==> first_named(repo_models(old(repositories)@), n@, #[trigger] done@[k] as int)
            },
            Err(e) => name_or_id matches Some(n) && (e matches StorageError::RepositoryNotFound(m) && m@ == n@)
                && none_named(repo_models(old(repositories)@), n@) && final(repositories)@ == old(repositories)@,
        },
        r is Err <==> (name_or_id matches Some(n) && none_named(repo_models(old(repositories)@), n@)),
{
    let mut done: Vec<usize> = Vec::new();
    match name_or_id {
        Some(n) => {
            match find_named(repositories, n.as_str()) {
                Some(i) => {
                    if crate::storage::path_exists(repositories[i].path.as_str()) {
                        refresh(repositories, i);
                        done.push(i);
                        assert(done@[0] == i);
                        assert(listed_in(done@, i as int));
                    }
                    Ok(done)
                },
                None => Err(StorageError::RepositoryNotFound(n)),
            }
        },
        None => {
            let ghost start = repositories@;
            let mut i: usize = 0;
            while i < repositories.len()
                invariant
                    i <= repositories@.len(),
                    repositories@.len() == start.len(),
                    forall|j: int| 0 <= j < start.len() ==> {
                        &&& (#[trigger] repositories@[j]).name == start[j].name
                        &&& repositories@[j].path == start[j].path
                        &&& repositories@[j].tags == start[j].tags
                        &&& repositories@[j].description == start[j].description
                    },
                    forall|k: int| 0 <= k < done@.len() ==> (#[trigger] done@[k]) < i,
                    forall|k: int, l: int| 0 <= k < l < done@.len() ==> #[trigger] done@[k] < #[trigger] done@[l],
                    forall|j: int| 0 <= j < start.len() && !listed_in(done@, j)
                        ==> #[trigger] repositories@[j] == start[j],
                decreases repositories@.len() - i,
            {
                let ghost before = repositories@;
                let ghost done_before = done@;
                if crate::storage::path_exists(repositories[i].path.as_str()) {
                    refresh(repositories, i);
                    done.push(i);
                    proof {
                        assert forall|j: int| 0 <= j < start.len() && !listed_in(done@, j)
                            implies #[trigger] repositories@[j] == start[j] by {
                            assert(done@[done_before.len() as int] == i);
                            if j == i {
                                assert(listed_in(done@, j));
                            }
                            assert(!listed_in(done_before, j)) by {
                                if listed_in(done_before, j) {
                                    let k = choose|k: int| 0 <= k < done_before.len() && done_before[k] as int == j;
                                    assert(done@[k] == done_before[k]);
                                }
                            }
                        }
                    }
                }
                i += 1;
            }
            Ok(done)
        },
    }
}

/// The same repository: name, path, tags and description agree.
pub open spec fn same_identity(a: RepoModel, b: RepoModel) -> bool {
    a.name == b.name && a.path == b.path && a.tags == b.tags && a.description == b.description
}

/// `v` holds, in order, the repositories at the strictly increasing positions
/// `done` of `loaded` (as identified by name, path, tags and description);
/// with a name, at most the first repository of that name.
pub open spec fn refreshed_from(loaded: Seq<RepoModel>, name: Option<Seq<char>>, done: Seq<int>, v: Seq<RepoModel>) -> bool {
    &&& v.len() == done.len()
    &&& forall|k: int, l: int| 0 <= k < l < done.len() ==> #[trigger] done[k] < #[trigger] done[l]
    &&& forall|k: int| 0 <= k < done.len() ==> 0 <= #[trigger] done[k] < loaded.len() && same_identity(v[k], loaded[done[k]])
    &&& (name matches Some(n) ==> done.len() <= 1 && forall|k: int| 0 <= k < done.len() ==> first_named(loaded, n, #[trigger] done[k]))
}

/// `v` was refreshed, as `refreshed_from` says, from some loaded list.
pub open spec fn refreshed_from_some_list(name: Option<Seq<char>>, v: Seq<RepoModel>) -> bool {
    exists|loaded: Seq<RepoModel>, done: Seq<int>| #[trigger] refreshed_from(loaded, name, done, v)
}

/// Loads the list and refreshes working copies as `update` does, then stores
/// the list. Nothing is stored when a name is given and its path no longer
/// exists, nor when the list is empty. Returns the refreshed repositories.
pub fn update_with_storage<S: RepositoryStorage>(storage: &S, name_or_id: Option<String>) -> (r: Result<Vec<Repository>, StorageError>)
    ensures
        r matches Ok(v) ==> refreshed_from_some_list(opt_text(name_or_id), repo_models(v@)),
{
    let mut repositories = match storage.load() {
        Ok(v) => v,
        Err(e) => return Err(e),
    };
    let ghost loaded = repo_models(repositories@);
    let ghost name = opt_text(name_or_id);
    let nothing: Vec<Repository> = Vec::new();
    proof {
        assert(repo_models(nothing@) =~= Seq::<RepoModel>::empty());
        assert(refreshed_from(loaded, opt_text(name_or_id), Seq::empty(), repo_models(nothing@)));
    }
    let single = name_or_id.is_some();
    if !single && repositories.len() == 0 {
        return Ok(nothing);
    }
    let done = match update(&mut repositories, name_or_id) {
        Ok(d) => d,
        Err(e) => return Err(e),
    };
    if single && done.len() == 0 {
        return Ok(nothing);
    }
    let ghost dn = positions(done@);
    let mut refreshed: Vec<Repository> = Vec::new();
    let mut k: usize = 0;
    while k < done.len()
        invariant
            k <= done@.len(),
            loaded.len() == repositories@.len(),
            dn == positions(done@),
            forall|a: int| 0 <= a < done@.len() ==> (#[trigger] done@[a]) < repositories@.len(),
            forall|j: int| 0 <= j < loaded.len() ==> same_identity(#[trigger] repositories@[j]@, loaded[j]),
            refreshed@.len() == k,
            forall|a: int| 0 <= a < k ==> (#[trigger] refreshed@[a])@ == repositories@[done@[a] as int]@,
        decreases done@.len() - k,
    {
        refreshed.push(repositories[done[k]].copied());
        k += 1;
    }
    proof {
        let v = repo_models(refreshed@);
        assert forall|a: int| 0 <= a < dn.len() implies 0 <= #[trigger] dn[a] < loaded.len() && same_identity(v[a], loaded[dn[a]]) by {
            assert(dn[a] == done@[a] as int);
            assert(same_identity(repositories@[dn[a]]@, loaded[dn[a]]));
        }
        assert forall|a: int, b: int| 0 <= a < b < dn.len() implies #[trigger] dn[a] < #[trigger] dn[b] by {
            assert(dn[a] == done@[a] as int && dn[b] == done@[b] as int);
        }
        match name {
            Some(n) => {
                assert forall|a: int| 0 <= a < dn.len() implies first_named(loaded, n, #[trigger] dn[a]) by {
                    assert(dn[a] == done@[a] as int);
                }
            },
            None => {},
        }
        assert(refreshed_from(loaded, opt_text(name_or_id), dn, repo_models(refreshed@)));
    }
    match storage.save(repositories.as_slice()) {
        Ok(()) => Ok(refreshed),
        Err(e) => Err(e),
    }
}

/// Detects the language of the repository at position `i` again and sets its
/// modification time to now.
fn refresh(repositories: &mut Vec<Repository>, i: usize)
    requires
        i < old(repositories)@.len(),
    ensures
        final(repositories)@.len() == old(repositories)@.len(),
        forall|j: int| 0 <= j < old(repositories)@.len() && j != i ==> #[trigger] final(repositories)@[j] == old(repositories)@[j],
        final(repositories)@[i as int].name == old(repositories)@[i as int].name,
        final(repositories)@[i as int].path == old(repositories)@[i as int].path,
        final(repositories)@[i as int].tags == old(repositories)@[i as int].tags,
        final(repositories)@[i as int].description == old(repositories)@[i as int].description,
{
    repositories[i].detect_language();
    repositories[i].last_modified = crate::storage::current_time();
}

/// Loads the list and keeps the repositories carrying every tag of the
/// comma-separated `tags` (when given), sorted as `sort` asks (see
/// `get_filtered_repositories`).
pub fn list_with_storage<T: RepositoryStorage>(storage: &T, tags: Option<String>, sort: Option<String>) -> (r: Result<Vec<Repository>, StorageError>)
    ensures
        r matches Ok(v) ==> exists|loaded: Seq<RepoModel>, order: Seq<int>|
            #[trigger] sorted_as(filter_stage(loaded, opt_text(tags)), opt_text(sort), order)
                && repo_models(v@) == pick(filter_stage(loaded, opt_text(tags)), order),
{
    let repositories = match storage.load() {
        Ok(v) => v,
        Err(e) => return Err(e),
    };
    Ok(get_filtered_repositories(repositories.as_slice(), &tags, &sort))
}

/// Loads the list and searches it (see `search_repositories`).
pub fn search_with_storage<S: RepositoryStorage>(storage: &S, query: &str) -> (r: Result<Vec<(Repository, i64)>, StorageError>)
    ensures
        r matches Ok(v) ==> exists|loaded: Seq<RepoModel>, order: Seq<int>|
            #[trigger] is_desc_order(scores_of(search_candidates(loaded, query@)), order)
                && scored_models(v@) == pick(search_candidates(loaded, query@), order),
{
    let repositories = match storage.load() {
        Ok(v) => v,
        Err(e) => return Err(e),
    };
    Ok(search_repositories(repositories.as_slice(), query))
}

} // verus!
