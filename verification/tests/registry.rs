//! Tests for the registry: alias uniqueness, the add/remove/get
//! conflict semantics, and the error messages.

use gitfindr::err::{
    FromPathError, NotARepositoryError, RepoAlreadyExistsError, RepoDoesNotExistError,
    RepoNameExtractError,
};
use gitfindr::registry::GitFindrConfig;
use gitfindr::repo::RepoData;

#[test]
fn new_registry_is_empty() {
    let cfg = GitFindrConfig::default();
    assert!(cfg.is_empty());
    assert!(cfg.get_repo("anything").is_none());
}

#[test]
fn add_then_get_returns_the_added_record() {
    let mut cfg = GitFindrConfig::default();
    cfg.add_repo(RepoData::new("x", "root/x")).unwrap();
    let got = cfg.get_repo("x").unwrap();
    assert_eq!(got.name, "x");
    assert_eq!(got.path, "root/x");
}

#[test]
fn second_add_under_same_alias_fails_and_keeps_first() {
    let mut cfg = GitFindrConfig::default();
    cfg.add_repo(RepoData::new("x", "first/path")).unwrap();
    let second = cfg.add_repo(RepoData::new("x", "second/path"));
    assert!(matches!(second, Err(RepoAlreadyExistsError)));
    assert_eq!(cfg.get_repo("x").unwrap().path, "first/path");
    assert_eq!(cfg.list().len(), 1);
}

#[test]
fn remove_absent_alias_fails_and_changes_nothing() {
    let mut cfg = GitFindrConfig::default();
    cfg.add_repo(RepoData::new("x", "p")).unwrap();
    let removed = cfg.remove_repo("y");
    assert!(matches!(removed, Err(RepoDoesNotExistError)));
    assert_eq!(cfg.get_repo("x").unwrap().path, "p");
    assert_eq!(cfg.list().len(), 1);
}

#[test]
fn remove_present_alias_deletes_the_entry() {
    let mut cfg = GitFindrConfig::default();
    cfg.add_repo(RepoData::new("x", "p")).unwrap();
    cfg.add_repo(RepoData::new("y", "q")).unwrap();
    cfg.remove_repo("x").unwrap();
    assert!(cfg.get_repo("x").is_none());
    assert_eq!(cfg.get_repo("y").unwrap().path, "q");
    assert!(!cfg.is_empty());
    cfg.remove_repo("y").unwrap();
    assert!(cfg.is_empty());
}

#[test]
fn list_shows_every_pair() {
    let mut cfg = GitFindrConfig::default();
    cfg.add_repo(RepoData::new("a", "pa")).unwrap();
    cfg.add_repo(RepoData::new("b", "pb")).unwrap();
    let mut seen: Vec<(String, String)> =
        cfg.list().iter().map(|r| (r.name.clone(), r.path.clone())).collect();
    seen.sort();
    assert_eq!(
        seen,
        vec![("a".to_string(), "pa".to_string()), ("b".to_string(), "pb".to_string())]
    );
}

#[test]
fn batch_add_skips_collisions_and_goes_on() {
    // A bulk add from a scan calls add_repo per record: a collision
    // skips that record only, the rest of the batch still lands.
    let mut cfg = GitFindrConfig::default();
    cfg.add_repo(RepoData::new("x", "kept")).unwrap();
    let batch = vec![
        RepoData::new("a", "pa"),
        RepoData::new("x", "clashes"),
        RepoData::new("b", "pb"),
    ];
    let mut skipped = 0;
    for record in batch {
        if cfg.add_repo(record).is_err() {
            skipped += 1;
        }
    }
    assert_eq!(skipped, 1);
    assert_eq!(cfg.get_repo("x").unwrap().path, "kept");
    assert_eq!(cfg.get_repo("a").unwrap().path, "pa");
    assert_eq!(cfg.get_repo("b").unwrap().path, "pb");
    assert_eq!(cfg.list().len(), 3);
}

#[test]
fn error_messages_read_as_documented() {
    assert_eq!(
        NotARepositoryError.message(),
        "The given directory is not a valid repository."
    );
    assert_eq!(RepoAlreadyExistsError.message(), "The given repository already exists.");
    assert_eq!(RepoDoesNotExistError.message(), "The given repository does not exist");
    assert_eq!(RepoNameExtractError.message(), "Could not extract repo name from path");
    assert_eq!(
        FromPathError::NotARepository.message(),
        "The given directory is not a valid repository."
    );
    assert_eq!(
        FromPathError::NameExtract.message(),
        "Could not extract repo name from path"
    );
}
