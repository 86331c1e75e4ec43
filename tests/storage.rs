use mangit::access::RepoAccess;
use mangit::storage::{Storage, StorageError};
use std::path::{Path, PathBuf};
use tempfile::{tempdir, Builder};

fn make_dir(parent: &Path, name: &str) -> PathBuf {
    let wanted = parent.join(name);
    if wanted.is_dir() {
        return wanted;
    }
    Builder::new().prefix(name).rand_bytes(0).tempdir_in(parent).unwrap().keep()
}

fn create_fake_repo(dir: &Path) -> PathBuf {
    if !dir.is_dir() {
        let parent = dir.parent().unwrap();
        make_dir(parent, dir.file_name().unwrap().to_str().unwrap());
    }
    let repo_path = make_dir(dir, "fake_repo");
    make_dir(&repo_path, ".git");
    repo_path
}

fn cwd_of(dir: &Path) -> Option<String> {
    Some(dir.to_string_lossy().to_string())
}

#[test]
fn test_add_repo() {
    let temp_dir = tempdir().unwrap();
    let cwd = cwd_of(temp_dir.path());
    let repo_path = create_fake_repo(temp_dir.path());

    let mut storage = Storage::new_empty();
    let is_new = storage
        .add_repo(repo_path.to_str().unwrap(), vec!["test".to_string(), "rust".to_string()], &cwd)
        .unwrap();

    assert!(is_new);
    assert_eq!(storage.len(), 1);

    let is_new = storage
        .add_repo(repo_path.to_str().unwrap(), vec!["updated".to_string()], &cwd)
        .unwrap();

    assert!(!is_new);
    assert_eq!(storage.len(), 1);

    let repo_access = storage.get(repo_path.to_str().unwrap()).unwrap();
    assert_eq!(repo_access.tags, vec!["updated".to_string()]);
}

#[test]
fn test_delete_repo() {
    let temp_dir = tempdir().unwrap();
    let cwd = cwd_of(temp_dir.path());
    let repo_path = create_fake_repo(temp_dir.path());

    let mut storage = Storage::new_empty();
    storage.add_repo(repo_path.to_str().unwrap(), vec!["test".to_string()], &cwd).unwrap();

    assert_eq!(storage.len(), 1);

    let deleted = storage.delete_repo(repo_path.to_str().unwrap(), &cwd).unwrap();
    assert!(deleted);
    assert_eq!(storage.len(), 0);

    let deleted = storage.delete_repo("non-existent-path", &cwd).unwrap();
    assert!(!deleted);
}

#[test]
fn test_update_repo() {
    let temp_dir = tempdir().unwrap();
    let cwd = cwd_of(temp_dir.path());
    let repo_path = create_fake_repo(temp_dir.path());

    let mut storage = Storage::new_empty();
    storage.add_repo(repo_path.to_str().unwrap(), vec!["initial".to_string()], &cwd).unwrap();

    let updated = storage
        .update_repo(repo_path.to_str().unwrap(), vec!["updated".to_string(), "tags".to_string()], &cwd)
        .unwrap();

    assert!(updated);

    let repo_access = storage.get(repo_path.to_str().unwrap()).unwrap();
    assert_eq!(repo_access.tags, vec!["updated".to_string(), "tags".to_string()]);

    let updated = storage.update_repo("non-existent-path", vec!["tag".to_string()], &cwd).unwrap();
    assert!(!updated);
}

#[test]
fn test_reset_frequency() {
    let temp_dir = tempdir().unwrap();
    let cwd = cwd_of(temp_dir.path());
    let repo_path = create_fake_repo(temp_dir.path());

    let mut storage = Storage::new_empty();
    storage.add_repo(repo_path.to_str().unwrap(), vec!["test".to_string()], &cwd).unwrap();

    for _ in 0..3 {
        storage.record_access(repo_path.to_str().unwrap(), &cwd).unwrap();
    }

    let repo_access = storage.get(repo_path.to_str().unwrap()).unwrap();
    assert!(repo_access.access_times.len() > 1);

    let reset_count = storage.reset_frequency(Some(repo_path.to_str().unwrap()), &cwd).unwrap();
    assert_eq!(reset_count, 1);

    let repo_access = storage.get(repo_path.to_str().unwrap()).unwrap();
    assert_eq!(repo_access.access_times.len(), 1);

    let repo2 = create_fake_repo(&temp_dir.path().join("repo2"));
    storage.add_repo(repo2.to_str().unwrap(), vec!["test".to_string()], &cwd).unwrap();

    for _ in 0..2 {
        storage.record_access(repo_path.to_str().unwrap(), &cwd).unwrap();
        storage.record_access(repo2.to_str().unwrap(), &cwd).unwrap();
    }

    let reset_count = storage.reset_frequency(None, &cwd).unwrap();
    assert_eq!(reset_count, 2);

    for (_, repo_access) in storage.entries().iter() {
        assert_eq!(repo_access.access_times.len(), 1);
    }
}

#[test]
fn test_search_by_tag() {
    let temp_dir = tempdir().unwrap();
    let cwd = cwd_of(temp_dir.path());
    let repo1 = create_fake_repo(&temp_dir.path().join("repo1"));
    let repo2 = create_fake_repo(&temp_dir.path().join("repo2"));
    let repo3 = create_fake_repo(&temp_dir.path().join("repo3"));

    let mut storage = Storage::new_empty();

    storage.add_repo(repo1.to_str().unwrap(), vec!["rust".to_string(), "cli".to_string()], &cwd).unwrap();
    storage.add_repo(repo2.to_str().unwrap(), vec!["rust".to_string(), "web".to_string()], &cwd).unwrap();
    storage.add_repo(repo3.to_str().unwrap(), vec!["python".to_string(), "cli".to_string()], &cwd).unwrap();

    let rust_repos = storage.search_by_tag("rust");
    assert_eq!(rust_repos.len(), 2);
    assert!(rust_repos.contains(&repo1.to_str().unwrap().to_string()));
    assert!(rust_repos.contains(&repo2.to_str().unwrap().to_string()));

    let cli_repos = storage.search_by_tag("cli");
    assert_eq!(cli_repos.len(), 2);
    assert!(cli_repos.contains(&repo1.to_str().unwrap().to_string()));
    assert!(cli_repos.contains(&repo3.to_str().unwrap().to_string()));

    let web_repos = storage.search_by_tag("web");
    assert_eq!(web_repos.len(), 1);
    assert!(web_repos.contains(&repo2.to_str().unwrap().to_string()));

    let empty_repos = storage.search_by_tag("nonexistent");
    assert_eq!(empty_repos.len(), 0);
}

#[test]
fn test_frecency_sorting() {
    let temp_dir = tempdir().unwrap();
    let cwd = cwd_of(temp_dir.path());
    let repo1 = create_fake_repo(&temp_dir.path().join("repo1"));
    let repo2 = create_fake_repo(&temp_dir.path().join("repo2"));

    let mut storage = Storage::new_empty();

    storage.add_repo(repo1.to_str().unwrap(), vec!["common".to_string()], &cwd).unwrap();
    storage.add_repo(repo2.to_str().unwrap(), vec!["common".to_string()], &cwd).unwrap();

    for _ in 0..3 {
        storage.record_access(repo2.to_str().unwrap(), &cwd).unwrap();
    }

    let results = storage.search_by_tag("common");
    assert_eq!(results.len(), 2);
    assert_eq!(results[0], repo2.to_str().unwrap().to_string());
    assert_eq!(results[1], repo1.to_str().unwrap().to_string());
}

#[test]
fn test_cleanup() {
    let temp_dir = tempdir().unwrap();
    let cwd = cwd_of(temp_dir.path());
    let repo_path = create_fake_repo(temp_dir.path());

    let mut storage = Storage::new_empty();
    storage.add_repo(repo_path.to_str().unwrap(), vec!["test".to_string()], &cwd).unwrap();

    let non_existent = "/path/does/not/exist";
    storage.insert(non_existent.to_string(), RepoAccess::new(vec!["fake".to_string()], 0));

    assert_eq!(storage.len(), 2);

    storage.cleanup();

    assert_eq!(storage.len(), 1);
    assert!(storage.contains_key(repo_path.to_str().unwrap()));
    assert!(!storage.contains_key(non_existent));
}

#[test]
fn add_missing_path_fails_and_leaves_index_unchanged() {
    let temp_dir = tempdir().unwrap();
    let cwd = cwd_of(temp_dir.path());
    let repo_path = create_fake_repo(temp_dir.path());
    let mut storage = Storage::new_empty();
    storage.add_repo(repo_path.to_str().unwrap(), vec!["keep".to_string()], &cwd).unwrap();

    let r = storage.add_repo("/path/does/not/exist", vec!["x".to_string()], &cwd);
    assert_eq!(r, Err(StorageError::PathNotFound("/path/does/not/exist".to_string())));
    assert_eq!(storage.len(), 1);
    assert!(!storage.contains_key("/path/does/not/exist"));
    assert_eq!(storage.get(repo_path.to_str().unwrap()).unwrap().tags, vec!["keep".to_string()]);
}

#[test]
fn relative_path_without_working_directory_is_refused() {
    let mut storage = Storage::new_empty();
    assert_eq!(storage.add_repo("some/repo", vec![], &None), Err(StorageError::PathResolution));
    assert_eq!(storage.delete_repo("some/repo", &None), Err(StorageError::PathResolution));
    assert_eq!(storage.update_repo("some/repo", vec![], &None), Err(StorageError::PathResolution));
    assert_eq!(storage.record_access("some/repo", &None), Err(StorageError::PathResolution));
    assert_eq!(storage.reset_frequency(Some("some/repo"), &None), Err(StorageError::PathResolution));
    assert_eq!(storage.reset_frequency(None, &None), Ok(0));
}

#[test]
fn relative_paths_collide_with_their_absolute_form() {
    let temp_dir = tempdir().unwrap();
    let cwd = cwd_of(temp_dir.path());
    let repo_path = create_fake_repo(temp_dir.path());
    let mut storage = Storage::new_empty();
    assert_eq!(storage.add_repo("fake_repo", vec!["a".to_string()], &cwd), Ok(true));
    assert!(storage.contains_key(repo_path.to_str().unwrap()));
    assert_eq!(storage.add_repo(repo_path.to_str().unwrap(), vec!["b".to_string()], &cwd), Ok(false));
    assert_eq!(storage.len(), 1);
}

#[test]
fn delete_on_empty_index_returns_false() {
    let mut storage = Storage::new_empty();
    assert_eq!(storage.delete_repo("/tmp/r1", &None), Ok(false));
    assert_eq!(storage.len(), 0);
}

#[test]
fn reset_all_on_three_repos_returns_three() {
    let mut storage = Storage::new_empty();
    for (i, p) in ["/tmp/a", "/tmp/b", "/tmp/c"].iter().enumerate() {
        storage.add_at(p.to_string(), vec!["t".to_string()], 1_000 * i as i64);
        for k in 0..4 {
            storage.record_access_at(p, 2_000 + k);
        }
    }
    assert_eq!(storage.reset_all_at(9_999), 3);
    for (_, access) in storage.entries().iter() {
        assert_eq!(access.access_times, vec![9_999]);
    }
    assert_eq!(storage.reset_frequency(None, &None), Ok(3));
    for (_, access) in storage.entries().iter() {
        assert_eq!(access.access_times.len(), 1);
    }
}

#[test]
fn search_ranks_more_accessed_repo_first() {
    let now: i64 = 1_700_000_000_000_000;
    let mut storage = Storage::new_empty();
    assert!(storage.add_at("/tmp/r1".to_string(), vec!["common".to_string()], now));
    assert!(storage.add_at("/tmp/r2".to_string(), vec!["common".to_string()], now + 1));
    for k in 0..3 {
        assert!(storage.record_access_at("/tmp/r2", now + 10 + k));
    }
    let found = storage.search_by_tag_at("common", now + 100);
    assert_eq!(found, vec!["/tmp/r2".to_string(), "/tmp/r1".to_string()]);
    assert_eq!(storage.get("/tmp/r1").unwrap().access_times, vec![now, now + 100]);
    assert_eq!(storage.get("/tmp/r2").unwrap().access_times.len(), 5);
}

#[test]
fn search_for_unknown_tag_is_empty_and_changes_nothing() {
    let mut storage = Storage::new_empty();
    storage.add_at("/tmp/r1".to_string(), vec!["rust".to_string()], 5);
    let found = storage.search_by_tag_at("nonexistent", 10);
    assert!(found.is_empty());
    assert_eq!(storage.get("/tmp/r1").unwrap().access_times, vec![5]);
    assert!(storage.search_by_tag_at("", 10).is_empty());
}

#[test]
fn tag_match_ignores_case_but_not_prefix() {
    let mut storage = Storage::new_empty();
    storage.add_at("/tmp/r1".to_string(), vec!["Rust".to_string()], 5);
    assert_eq!(storage.rank_by_tag("rust", 10), vec!["/tmp/r1".to_string()]);
    assert_eq!(storage.rank_by_tag("RUST", 10), vec!["/tmp/r1".to_string()]);
    assert!(storage.rank_by_tag("rus", 10).is_empty());
    assert!(storage.rank_by_tag("rusty", 10).is_empty());
}

#[test]
fn rank_ties_follow_path_order() {
    let mut storage = Storage::new_empty();
    storage.add_at("/tmp/z".to_string(), vec!["t".to_string()], 0);
    storage.add_at("/tmp/a".to_string(), vec!["t".to_string()], 0);
    storage.add_at("/tmp/m".to_string(), vec!["other".to_string(), "T".to_string()], 0);
    assert_eq!(
        storage.rank_by_tag("t", 10),
        vec!["/tmp/a".to_string(), "/tmp/m".to_string(), "/tmp/z".to_string()]
    );
    storage.record_access_at("/tmp/z", 5);
    assert_eq!(
        storage.rank_by_tag("t", 10),
        vec!["/tmp/z".to_string(), "/tmp/a".to_string(), "/tmp/m".to_string()]
    );
    // ranking alone records nothing
    assert_eq!(storage.get("/tmp/a").unwrap().access_times, vec![0]);
}

#[test]
fn rank_ties_do_not_depend_on_insertion_order() {
    let mut first = Storage::new_empty();
    first.add_at("/tmp/b".to_string(), vec!["x".to_string()], 0);
    first.add_at("/tmp/a".to_string(), vec!["x".to_string()], 0);
    let mut second = Storage::new_empty();
    second.add_at("/tmp/a".to_string(), vec!["x".to_string()], 0);
    second.add_at("/tmp/b".to_string(), vec!["x".to_string()], 0);
    let expected = vec!["/tmp/a".to_string(), "/tmp/b".to_string()];
    assert_eq!(first.search_by_tag_at("x", 10), expected);
    assert_eq!(second.search_by_tag_at("x", 10), expected);
}

#[test]
fn empty_query_matches_nothing_even_an_empty_tag() {
    let mut storage = Storage::new_empty();
    storage.add_at("/tmp/e".to_string(), vec!["".to_string()], 3);
    assert!(storage.search_by_tag_at("", 10).is_empty());
    assert_eq!(storage.get("/tmp/e").unwrap().access_times, vec![3]);
    assert!(storage.rank_by_tag("", 10).is_empty());
}

#[test]
fn add_twice_replaces_tags() {
    let mut storage = Storage::new_empty();
    assert!(storage.add_at("/tmp/p".to_string(), vec!["a".to_string(), "b".to_string()], 1));
    assert!(!storage.add_at("/tmp/p".to_string(), vec!["c".to_string()], 2));
    let rec = storage.get("/tmp/p").unwrap();
    assert_eq!(rec.tags, vec!["c".to_string()]);
    assert_eq!(rec.access_times, vec![1, 2]);
    assert_eq!(storage.len(), 1);
}

#[test]
fn update_and_access_of_unknown_path_create_nothing() {
    let mut storage = Storage::new_empty();
    assert!(!storage.update_at("/tmp/x", vec!["a".to_string()], 1));
    assert!(!storage.record_access_at("/tmp/x", 1));
    assert!(!storage.reset_one_at("/tmp/x", 1));
    assert_eq!(storage.len(), 0);
}

#[test]
fn retain_flagged_drops_unflagged_paths() {
    let mut storage = Storage::new_empty();
    storage.add_at("/a".to_string(), vec![], 1);
    storage.add_at("/b".to_string(), vec![], 2);
    storage.add_at("/c".to_string(), vec![], 3);
    storage.retain_flagged(&vec![true, false, true]);
    let paths: Vec<String> = storage.entries().iter().map(|e| e.0.clone()).collect();
    assert_eq!(paths, vec!["/a".to_string(), "/c".to_string()]);
}

#[test]
fn from_entries_rebuilds_the_same_index() {
    let mut storage = Storage::new_empty();
    storage.add_at("/a".to_string(), vec!["x".to_string()], 1);
    storage.add_at("/b".to_string(), vec!["y".to_string(), "z".to_string()], 2);
    storage.record_access_at("/a", 3);
    let copy: Vec<(String, RepoAccess)> = storage
        .entries()
        .iter()
        .map(|(p, a)| (p.clone(), RepoAccess { tags: a.tags.clone(), access_times: a.access_times.clone() }))
        .collect();
    let rebuilt = Storage::from_entries(copy);
    assert_eq!(rebuilt.len(), 2);
    assert_eq!(rebuilt.get("/a").unwrap().access_times, vec![1, 3]);
    assert_eq!(rebuilt.get("/b").unwrap().tags, vec!["y".to_string(), "z".to_string()]);
}

#[test]
fn insert_truncates_long_history_and_replaces() {
    let mut storage = Storage::new_empty();
    let times: Vec<i64> = (0..15).collect();
    storage.insert("/a".to_string(), RepoAccess { tags: vec![], access_times: times });
    assert_eq!(storage.get("/a").unwrap().access_times, (5..15).collect::<Vec<i64>>());
    storage.insert("/a".to_string(), RepoAccess { tags: vec!["n".to_string()], access_times: vec![7] });
    assert_eq!(storage.len(), 1);
    assert_eq!(storage.get("/a").unwrap().access_times, vec![7]);
}
