use mangit::commands::{
    list_with_storage, remove, remove_with_storage, search_with_storage, update, update_with_storage, RepositoryStorage,
};
use mangit::repository::{get_filtered_repositories, language_from_markers, search_repositories, token_hits_folded, Repository};
use mangit::storage::StorageError;
use std::cell::RefCell;
use std::path::{Path, PathBuf};
use tempfile::{tempdir, Builder};

const DAY: i64 = 86_400_000_000;

fn repo(name: &str, path: &str, tags: &[&str], description: &str, last_modified: i64, language: Option<&str>) -> Repository {
    Repository {
        name: name.to_string(),
        path: path.to_string(),
        tags: tags.iter().map(|t| t.to_string()).collect(),
        description: description.to_string(),
        last_modified,
        language: language.map(|l| l.to_string()),
    }
}

fn sample() -> Repository {
    Repository::new(
        "test-repo".to_string(),
        "/path/to/repo".to_string(),
        vec!["rust".to_string(), "cli".to_string()],
        "A test repository".to_string(),
    )
}

fn make_file(dir: &Path, name: &str) -> PathBuf {
    let (prefix, suffix) = match name.rfind('.') {
        Some(i) => (&name[..i], &name[i..]),
        None => (name, ""),
    };
    let (_, path) = Builder::new().prefix(prefix).suffix(suffix).rand_bytes(0).tempfile_in(dir).unwrap().keep().unwrap();
    path
}

fn make_dir(parent: &Path, name: &str) -> PathBuf {
    Builder::new().prefix(name).rand_bytes(0).tempdir_in(parent).unwrap().keep()
}

struct TestStorage {
    repositories: RefCell<Vec<Repository>>,
    saved: RefCell<bool>,
}

impl TestStorage {
    fn new(repositories: Vec<Repository>) -> Self {
        TestStorage { repositories: RefCell::new(repositories), saved: RefCell::new(false) }
    }
}

impl RepositoryStorage for TestStorage {
    fn load(&self) -> Result<Vec<Repository>, StorageError> {
        Ok(self.repositories.borrow().iter().map(|r| r.copied()).collect())
    }

    fn save(&self, repositories: &[Repository]) -> Result<(), StorageError> {
        *self.saved.borrow_mut() = true;
        *self.repositories.borrow_mut() = repositories.iter().map(|r| r.copied()).collect();
        Ok(())
    }
}

fn search_fixture() -> Vec<Repository> {
    vec![
        repo("rust-cli", "/path/to/rust-cli", &["rust", "cli"], "A command-line interface in Rust", 0, Some("Rust")),
        repo("web-app", "/path/to/web-app", &["javascript", "web"], "A web application", 0, Some("JavaScript/TypeScript")),
        repo("data-analysis", "/path/to/data-analysis", &["python", "data-science"], "Data analysis scripts", 0, Some("Python")),
    ]
}

fn list_fixture() -> Vec<Repository> {
    let now = 1_000 * DAY;
    vec![
        repo("repo-a", "/path/to/repo-a", &["rust", "cli"], "Repository A", now - 2 * DAY, Some("Rust")),
        repo("repo-b", "/path/to/repo-b", &["javascript", "web"], "Repository B", now, Some("JavaScript/TypeScript")),
        repo("repo-c", "/path/to/repo-c", &["rust", "web"], "Repository C", now - DAY, Some("Rust")),
    ]
}

fn names(v: &[Repository]) -> Vec<String> {
    v.iter().map(|r| r.name.clone()).collect()
}

#[test]
fn test_new_repository() {
    let name = "test-repo".to_string();
    let path = "/path/to/repo".to_string();
    let tags = vec!["rust".to_string(), "cli".to_string()];
    let description = "A test repository".to_string();

    let repo = Repository::new(name.clone(), path.clone(), tags.clone(), description.clone());

    assert_eq!(repo.name, name);
    assert_eq!(repo.path, path);
    assert_eq!(repo.tags, tags);
    assert_eq!(repo.description, description);
    assert!(repo.language.is_none());
}

#[test]
fn test_detect_language_rust() {
    let temp_dir = tempdir().unwrap();
    let repo_path = temp_dir.path().to_str().unwrap().to_string();
    make_file(temp_dir.path(), "Cargo.toml");
    let mut repo = Repository::new("test-repo".to_string(), repo_path.clone(), Vec::new(), "".to_string());
    repo.detect_language();
    assert_eq!(repo.language, Some("Rust".to_string()));
}

#[test]
fn test_detect_language_javascript() {
    let temp_dir = tempdir().unwrap();
    let repo_path = temp_dir.path().to_str().unwrap().to_string();
    make_file(temp_dir.path(), "package.json");
    let mut repo = Repository::new("test-repo".to_string(), repo_path.clone(), Vec::new(), "".to_string());
    repo.detect_language();
    assert_eq!(repo.language, Some("JavaScript/TypeScript".to_string()));
}

#[test]
fn detect_language_keeps_unknown_when_no_marker() {
    let temp_dir = tempdir().unwrap();
    let mut repo = Repository::new("x".to_string(), temp_dir.path().to_str().unwrap().to_string(), vec![], "".to_string());
    repo.language = Some("Zig".to_string());
    repo.detect_language();
    assert_eq!(repo.language, Some("Zig".to_string()));
    make_file(temp_dir.path(), "setup.py");
    repo.detect_language();
    assert_eq!(repo.language, Some("Python".to_string()));
}

#[test]
fn test_matches_query_empty() {
    assert!(sample().matches_query(""));
}

#[test]
fn test_matches_query_name() {
    let repo = sample();
    assert!(repo.matches_query("test"));
    assert!(repo.matches_query("repo"));
    assert!(repo.matches_query("TEST"));
}

#[test]
fn test_matches_query_description() {
    assert!(sample().matches_query("repository"));
}

#[test]
fn test_matches_query_tags() {
    let repo = sample();
    assert!(repo.matches_query("rust"));
    assert!(repo.matches_query("CLI"));
}

#[test]
fn test_matches_query_language() {
    let mut repo = sample();
    repo.language = Some("Rust".to_string());
    assert!(repo.matches_query("rust"));
}

#[test]
fn matches_query_needs_one_hitting_token() {
    let repo = sample();
    assert!(repo.matches_query("nothing here cli"));
    assert!(!repo.matches_query("python go"));
    assert!(!repo.matches_query("   "));
}

#[test]
fn token_hits_folded_is_exact_substring() {
    let tags = vec!["rust".to_string()];
    assert!(token_hits_folded("abc", "", &tags, &None, "ust"));
    assert!(token_hits_folded("abc", "", &tags, &None, "bc"));
    assert!(!token_hits_folded("abc", "", &tags, &None, "ABC"));
    assert!(token_hits_folded("abc", "", &vec![], &Some("go".to_string()), "go"));
    assert!(!token_hits_folded("abc", "def", &vec![], &None, "xyz"));
}

#[test]
fn test_matches_tags_empty() {
    assert!(sample().matches_tags(&[]));
}

#[test]
fn test_matches_tags_single() {
    let repo = sample();
    assert!(repo.matches_tags(&["rust".to_string()]));
    assert!(repo.matches_tags(&["cli".to_string()]));
}

#[test]
fn test_matches_tags_multiple() {
    assert!(sample().matches_tags(&["rust".to_string(), "cli".to_string()]));
}

#[test]
fn test_matches_tags_not_found() {
    let repo = sample();
    assert!(!repo.matches_tags(&["web".to_string()]));
    assert!(!repo.matches_tags(&["rust".to_string(), "web".to_string()]));
    assert!(!repo.matches_tags(&["RUST".to_string()]));
}

#[test]
fn test_search_repositories_matching_name() {
    let matches = search_repositories(&search_fixture(), "rust");
    let found: Vec<String> = matches.iter().map(|(r, _)| r.name.clone()).collect();
    assert!(found.contains(&"rust-cli".to_string()));
    assert!(!found.contains(&"web-app".to_string()));
}

#[test]
fn test_search_repositories_matching_tags() {
    let matches = search_repositories(&search_fixture(), "web");
    assert!(matches.iter().any(|(r, _)| r.name == "web-app"));
}

#[test]
fn test_search_repositories_matching_description() {
    let matches = search_repositories(&search_fixture(), "analysis");
    assert!(matches.iter().any(|(r, _)| r.name == "data-analysis"));
}

#[test]
fn test_search_repositories_no_matches() {
    assert!(search_repositories(&search_fixture(), "nonexistent").is_empty());
}

#[test]
fn test_search_repositories_empty_query() {
    let test_repos = search_fixture();
    let matches = search_repositories(&test_repos, "");
    assert_eq!(matches.len(), test_repos.len());
    for (_, score) in matches.iter() {
        assert_eq!(*score, 0);
    }
    let found: Vec<String> = matches.iter().map(|(r, _)| r.name.clone()).collect();
    assert_eq!(found, names(&test_repos));
}

#[test]
fn test_search_repositories_empty_repositories() {
    let empty_repos: Vec<Repository> = Vec::new();
    assert!(search_repositories(&empty_repos, "any").is_empty());
}

#[test]
fn search_results_are_sorted_by_score() {
    let matches = search_repositories(&search_fixture(), "a");
    for w in matches.windows(2) {
        assert!(w[0].1 >= w[1].1);
    }
}

#[test]
fn test_search_integration() {
    let storage = TestStorage::new(search_fixture());
    let result = search_with_storage(&storage, "rust");
    assert!(result.is_ok());
    assert!(result.unwrap().iter().any(|(r, _)| r.name == "rust-cli"));
}

#[test]
fn test_get_filtered_repositories_all() {
    let repos = get_filtered_repositories(&list_fixture(), &None, &None);
    assert_eq!(repos.len(), 3);
}

#[test]
fn test_get_filtered_repositories_by_tags() {
    let repos = get_filtered_repositories(&list_fixture(), &Some("rust".to_string()), &None);
    assert_eq!(repos.len(), 2);
    for r in repos.iter() {
        assert!(r.tags.contains(&"rust".to_string()));
    }
}

#[test]
fn test_get_filtered_repositories_by_multiple_tags() {
    let repos = get_filtered_repositories(&list_fixture(), &Some("rust,web".to_string()), &None);
    assert_eq!(repos.len(), 1);
    assert_eq!(repos[0].name, "repo-c");
}

#[test]
fn test_get_filtered_repositories_sort_by_name() {
    let repos = get_filtered_repositories(&list_fixture(), &None, &Some("name".to_string()));
    assert_eq!(names(&repos), vec!["repo-a", "repo-b", "repo-c"]);
}

#[test]
fn test_get_filtered_repositories_sort_by_modified() {
    let repos = get_filtered_repositories(&list_fixture(), &None, &Some("modified".to_string()));
    assert_eq!(names(&repos), vec!["repo-b", "repo-c", "repo-a"]);
}

#[test]
fn test_get_filtered_repositories_empty() {
    let empty_repos: Vec<Repository> = Vec::new();
    assert!(get_filtered_repositories(&empty_repos, &None, &None).is_empty());
}

#[test]
fn name_sort_ignores_case_and_is_stable() {
    let rs = vec![
        repo("beta", "/1", &[], "", 0, None),
        repo("Alpha", "/2", &[], "", 0, None),
        repo("BETA", "/3", &[], "", 0, None),
    ];
    let sorted = get_filtered_repositories(&rs, &None, &Some("bogus".to_string()));
    let paths: Vec<String> = sorted.iter().map(|r| r.path.clone()).collect();
    assert_eq!(paths, vec!["/2", "/1", "/3"]);
}

#[test]
fn test_list_integration() {
    let storage = TestStorage::new(list_fixture());
    let result = list_with_storage(&storage, Some("rust".to_string()), Some("name".to_string()));
    assert!(result.is_ok());
    assert_eq!(names(&result.unwrap()), vec!["repo-a", "repo-c"]);
}

#[test]
fn test_remove_existing_repository() {
    let storage = TestStorage::new(vec![repo("test-repo", "/path/to/repo", &["test"], "Test repository", 0, None)]);
    let result = remove_with_storage(&storage, "test-repo");
    assert!(result.is_ok());
    assert!(storage.load().unwrap().is_empty());
}

#[test]
fn test_remove_nonexistent_repository() {
    let storage = TestStorage::new(vec![repo("test-repo", "/path/to/repo", &["test"], "Test repository", 0, None)]);
    let result = remove_with_storage(&storage, "non-existent-repo");
    assert!(result.is_err());
    let err = result.unwrap_err().describe();
    assert!(err.contains("not found"));
    assert_eq!(storage.load().unwrap().len(), 1);
    assert!(!*storage.saved.borrow());
}

#[test]
fn remove_takes_the_first_of_equal_names() {
    let mut rs = vec![repo("a", "/1", &[], "", 0, None), repo("b", "/2", &[], "", 0, None), repo("b", "/3", &[], "", 0, None)];
    assert_eq!(remove(&mut rs, "b"), Ok(()));
    let paths: Vec<String> = rs.iter().map(|r| r.path.clone()).collect();
    assert_eq!(paths, vec!["/1", "/3"]);
    assert_eq!(remove(&mut rs, "zz"), Err(StorageError::RepositoryNotFound("zz".to_string())));
}

struct TrackingStorage {
    repositories: RefCell<Vec<Repository>>,
    loaded: RefCell<bool>,
    saved: RefCell<bool>,
}

impl TrackingStorage {
    fn new() -> Self {
        TrackingStorage { repositories: RefCell::new(Vec::new()), loaded: RefCell::new(false), saved: RefCell::new(false) }
    }

    fn add_repository(&self, repo: Repository) {
        self.repositories.borrow_mut().push(repo);
    }

    fn find_repository(&self, name: &str) -> Option<Repository> {
        self.repositories.borrow().iter().find(|r| r.name == name).map(|r| r.copied())
    }

    fn was_loaded(&self) -> bool {
        *self.loaded.borrow()
    }

    fn was_saved(&self) -> bool {
        *self.saved.borrow()
    }
}

impl RepositoryStorage for TrackingStorage {
    fn load(&self) -> Result<Vec<Repository>, StorageError> {
        *self.loaded.borrow_mut() = true;
        Ok(self.repositories.borrow().iter().map(|r| r.copied()).collect())
    }

    fn save(&self, repositories: &[Repository]) -> Result<(), StorageError> {
        *self.saved.borrow_mut() = true;
        *self.repositories.borrow_mut() = repositories.iter().map(|r| r.copied()).collect();
        Ok(())
    }
}

#[test]
fn test_update_single_repo() {
    let repo_name = "test-repo";
    let temp_storage = TrackingStorage::new();
    temp_storage.add_repository(repo(repo_name, "/tmp/test-repo", &["test"], "Test repository", 0, None));

    let result = update_with_storage(&temp_storage, Some(repo_name.to_string()));

    assert!(result.is_ok());
    let updated_repo = temp_storage.find_repository(repo_name).unwrap();
    assert_eq!(updated_repo.name, repo_name);
}

#[test]
fn test_update_nonexistent_repo() {
    let repo_name = "nonexistent-repo";
    let temp_storage = TrackingStorage::new();

    let result = update_with_storage(&temp_storage, Some(repo_name.to_string()));

    assert!(result.is_err());
    assert!(result.unwrap_err().describe().contains("not found"));
}

#[test]
fn test_update_all_repos() {
    let temp_storage = TrackingStorage::new();
    temp_storage.add_repository(repo("repo1", "/tmp/repo1", &["test"], "Test repository 1", 0, None));
    temp_storage.add_repository(repo("repo2", "/tmp/repo2", &["test"], "Test repository 2", 0, None));

    let result = update_with_storage(&temp_storage, None);

    assert!(result.is_ok());
    assert!(temp_storage.was_loaded());
    assert!(temp_storage.was_saved());
}

#[test]
fn test_update_all_repos_empty() {
    let temp_storage = TrackingStorage::new();

    let result = update_with_storage(&temp_storage, None);

    assert!(result.is_ok());
    assert!(temp_storage.was_loaded());
    assert!(!temp_storage.was_saved());
}

#[test]
fn update_refreshes_existing_paths_only() {
    let temp_dir = tempdir().unwrap();
    let present = make_dir(temp_dir.path(), "present");
    make_file(&present, "go.mod");
    let mut rs = vec![
        repo("repo1", "/tmp/repo1-that-does-not-exist", &["test"], "Test repository 1", 5, None),
        repo("repo2", present.to_str().unwrap(), &["test"], "Test repository 2", 5, None),
    ];
    let done = update(&mut rs, None).unwrap();
    assert_eq!(done, vec![1]);
    assert_eq!(rs[0].last_modified, 5);
    assert!(rs[1].last_modified > 5);
    assert_eq!(rs[1].language, Some("Go".to_string()));
    let single = update(&mut rs, Some("repo1".to_string())).unwrap();
    assert!(single.is_empty());
    assert_eq!(update(&mut rs, Some("zz".to_string())), Err(StorageError::RepositoryNotFound("zz".to_string())));
}

#[test]
fn fuzzy_name_match_finds_repository() {
    let matches = search_repositories(&search_fixture(), "rc");
    assert!(matches.iter().any(|(r, s)| r.name == "rust-cli" && *s > 0));
    assert!(!search_fixture()[0].matches_query("rc"));
}

#[test]
fn first_marker_decides_language() {
    let f = false;
    let t = true;
    assert_eq!(language_from_markers(&vec![f, f, f, f, t, f, t, f]), Some("Java".to_string()));
    assert_eq!(language_from_markers(&vec![t, t, t, t, t, t, t, t]), Some("Rust".to_string()));
    assert_eq!(language_from_markers(&vec![f, f, f, f, f, f, t, t]), Some("Python".to_string()));
    assert_eq!(language_from_markers(&vec![f, f, f, f, f, f, f, t]), Some("C/C++".to_string()));
    assert_eq!(language_from_markers(&vec![f, t, t, f, f, f, f, f]), Some("JavaScript/TypeScript".to_string()));
    assert_eq!(language_from_markers(&vec![f, f, t, f, f, f, f, f]), Some("Go".to_string()));
    assert_eq!(language_from_markers(&vec![f; 8]), None);
}
