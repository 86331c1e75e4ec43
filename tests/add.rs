use mangit::commands::{add_with_storage, describe_repository, RepositoryStorage};
use mangit::repository::Repository;
use mangit::storage::StorageError;
use std::cell::RefCell;
use tempfile::{tempdir, Builder};

struct TestStorage {
    repositories: RefCell<Vec<Repository>>,
}

impl TestStorage {
    fn new() -> Self {
        TestStorage { repositories: RefCell::new(Vec::new()) }
    }
}

impl RepositoryStorage for TestStorage {
    fn load(&self) -> Result<Vec<Repository>, StorageError> {
        Ok(self.repositories.borrow().iter().map(|r| r.copied()).collect())
    }

    fn save(&self, repositories: &[Repository]) -> Result<(), StorageError> {
        *self.repositories.borrow_mut() = repositories.iter().map(|r| r.copied()).collect();
        Ok(())
    }
}

fn create_git_repo(dir: &std::path::Path) {
    Builder::new().prefix(".git").rand_bytes(0).tempdir_in(dir).unwrap().keep();
}

#[test]
fn test_add_with_existing_git_repo() {
    let temp_dir = tempdir().unwrap();
    let repo_path = temp_dir.path();
    create_git_repo(repo_path);

    let test_storage = TestStorage::new();

    let result = add_with_storage(
        &test_storage,
        repo_path.to_str().unwrap(),
        Some("test-repo".to_string()),
        Some("rust,cli".to_string()),
        Some("Test repository".to_string()),
    );

    assert!(result.is_ok());
    let repos = test_storage.load().unwrap();
    assert_eq!(repos.len(), 1);
    let repo = &repos[0];
    assert_eq!(repo.name, "test-repo");
    assert_eq!(repo.tags, vec!["rust", "cli"]);
    assert_eq!(repo.description, "Test repository");
}

#[test]
fn test_add_with_non_existent_path() {
    let non_existent_path = "/path/does/not/exist";
    let test_storage = TestStorage::new();

    let result = add_with_storage(&test_storage, non_existent_path, Some("test-repo".to_string()), None, None);

    assert!(result.is_err());
    let err = result.unwrap_err().describe();
    assert!(err.contains("does not exist"));
}

#[test]
fn test_add_with_non_git_repo() {
    let temp_dir = tempdir().unwrap();
    let repo_path = temp_dir.path();
    let test_storage = TestStorage::new();

    let result = add_with_storage(&test_storage, repo_path.to_str().unwrap(), Some("test-repo".to_string()), None, None);

    assert!(result.is_err());
    let err = result.unwrap_err().describe();
    assert!(err.contains("not a Git repository"));
}

#[test]
fn test_add_with_no_name_provided() {
    let temp_dir = tempdir().unwrap();
    let repo_path = temp_dir.path();
    create_git_repo(repo_path);
    let dir_name = match repo_path.file_name() {
        Some(os_str) => os_str.to_string_lossy().to_string(),
        None => String::new(),
    };

    let test_storage = TestStorage::new();

    let result = add_with_storage(
        &test_storage,
        repo_path.to_str().unwrap(),
        None,
        Some("rust,cli".to_string()),
        Some("Test repository".to_string()),
    );

    assert!(result.is_ok());
    let repos = test_storage.load().unwrap();
    assert_eq!(repos.len(), 1);
    let repo = &repos[0];
    assert_eq!(repo.name, dir_name);
}

#[test]
fn describe_repository_fills_defaults() {
    let r = describe_repository("/x/y/proj".to_string(), None, Some(" a, ,b ".to_string()), None).unwrap();
    assert_eq!(r.name, "proj");
    assert_eq!(r.tags, vec!["a", "b"]);
    assert_eq!(r.description, "");
    assert!(describe_repository("/".to_string(), None, None, None).is_err());
    let named = describe_repository("/".to_string(), Some("n".to_string()), None, Some("d".to_string())).unwrap();
    assert_eq!(named.name, "n");
    assert_eq!(named.description, "d");
    assert!(named.tags.is_empty());
}
