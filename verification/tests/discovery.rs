//! Tests for the repository validator, the default-name derivation,
//! and the directory walker.

use gitfindr::err::{FromPathError, NotARepositoryError};
use gitfindr::repo::{derive_name, RepoData};
use gitfindr::scan::{parse_directory, DirTree};
use gitfindr::validate::validate_repo;

fn strings(names: &[&str]) -> Vec<String> {
    names.iter().map(|s| s.to_string()).collect()
}

fn leaf(name: &str, entries: &[&str]) -> DirTree {
    DirTree { name: name.to_string(), readable: true, entries: strings(entries), subdirs: vec![] }
}

fn dir(name: &str, entries: &[&str], subdirs: Vec<DirTree>) -> DirTree {
    DirTree { name: name.to_string(), readable: true, entries: strings(entries), subdirs }
}

fn pairs(repos: &[RepoData]) -> Vec<(String, String)> {
    let mut v: Vec<(String, String)> =
        repos.iter().map(|r| (r.name.clone(), r.path.clone())).collect();
    v.sort();
    v
}

#[test]
fn validate_accepts_git_child() {
    let entries = strings(&["src", ".git", "README"]);
    assert!(validate_repo(&entries).is_ok());
}

#[test]
fn validate_accepts_lone_git_entry() {
    // The check is by name only: a `.git` worktree-link file counts.
    let entries = strings(&[".git"]);
    assert!(validate_repo(&entries).is_ok());
}

#[test]
fn validate_rejects_without_git() {
    let entries = strings(&["src", "README"]);
    assert!(matches!(validate_repo(&entries), Err(NotARepositoryError)));
}

#[test]
fn validate_rejects_empty_listing() {
    let entries: Vec<String> = vec![];
    assert!(matches!(validate_repo(&entries), Err(NotARepositoryError)));
}

#[test]
fn validate_rejects_near_miss_names() {
    let entries = strings(&[".gitignore", "git", ".Git"]);
    assert!(validate_repo(&entries).is_err());
}

#[test]
fn derive_name_takes_last_component() {
    assert_eq!(derive_name("root/a"), Some("a".to_string()));
    assert_eq!(derive_name("a"), Some("a".to_string()));
    assert_eq!(derive_name("/usr/bin"), Some("bin".to_string()));
}

#[test]
fn derive_name_ignores_trailing_separators() {
    assert_eq!(derive_name("/usr/bin/"), Some("bin".to_string()));
    assert_eq!(derive_name("x///"), Some("x".to_string()));
}

#[test]
fn derive_name_keeps_dotted_names_whole() {
    assert_eq!(derive_name("work/a.b"), Some("a.b".to_string()));
}

#[test]
fn derive_name_fails_without_component() {
    assert_eq!(derive_name(""), None);
    assert_eq!(derive_name("/"), None);
    assert_eq!(derive_name("///"), None);
    assert_eq!(derive_name(".."), None);
    assert_eq!(derive_name("a/.."), None);
    assert_eq!(derive_name("."), None);
}

#[test]
fn from_path_builds_record() {
    let entries = strings(&[".git", "src"]);
    let r = RepoData::from_path("root/a", &entries).unwrap();
    assert_eq!(r.name, "a");
    assert_eq!(r.path, "root/a");
}

#[test]
fn from_path_rejects_non_repo() {
    let entries = strings(&["src"]);
    assert!(matches!(
        RepoData::from_path("root/a", &entries),
        Err(FromPathError::NotARepository)
    ));
}

#[test]
fn from_path_fails_without_usable_component() {
    // A repository whose path yields no name is a name-extraction
    // failure, not a record with an empty alias.
    let entries = strings(&[".git"]);
    assert!(matches!(RepoData::from_path("/", &entries), Err(FromPathError::NameExtract)));
    assert!(matches!(RepoData::from_path("..", &entries), Err(FromPathError::NameExtract)));
}

#[test]
fn from_path_reports_missing_git_before_missing_name() {
    let entries = strings(&["src"]);
    assert!(matches!(RepoData::from_path("/", &entries), Err(FromPathError::NotARepository)));
}

#[test]
fn scan_finds_repos_at_different_depths() {
    // root/{a/.git, b/{c/.git}}: two repositories, named a and c (not b).
    let tree = dir(
        "root",
        &["a", "b"],
        vec![
            leaf("a", &[".git"]),
            dir("b", &["c"], vec![leaf("c", &[".git"])]),
        ],
    );
    let out = parse_directory("root", tree);
    assert_eq!(
        pairs(&out.repos),
        vec![
            ("a".to_string(), "root/a".to_string()),
            ("c".to_string(), "root/b/c".to_string()),
        ]
    );
    assert!(out.name_errors.is_empty());
}

#[test]
fn scan_includes_the_root_itself() {
    let tree = leaf("unused", &[".git"]);
    let out = parse_directory("work/proj", tree);
    assert_eq!(pairs(&out.repos), vec![("proj".to_string(), "work/proj".to_string())]);
}

#[test]
fn scan_descends_into_repositories() {
    // A repository nested inside another repository is still found.
    let tree = dir("root", &[".git", "vendor"], vec![leaf("vendor", &[".git"])]);
    let out = parse_directory("r", tree);
    assert_eq!(
        pairs(&out.repos),
        vec![
            ("r".to_string(), "r".to_string()),
            ("vendor".to_string(), "r/vendor".to_string()),
        ]
    );
}

#[test]
fn scan_skips_unreadable_directories() {
    let unreadable = DirTree {
        name: "secret".to_string(),
        readable: false,
        entries: strings(&[".git"]),
        subdirs: vec![leaf("inner", &[".git"])],
    };
    let tree = dir("root", &["a", "secret"], vec![leaf("a", &[".git"]), unreadable]);
    let out = parse_directory("root", tree);
    assert_eq!(pairs(&out.repos), vec![("a".to_string(), "root/a".to_string())]);
}

#[test]
fn scan_reports_name_extraction_failure() {
    // The root "/" is a repository but yields no name: the scan goes
    // on and reports the path.
    let tree = dir("root", &[".git", "a"], vec![leaf("a", &[".git"])]);
    let out = parse_directory("/", tree);
    assert_eq!(pairs(&out.repos), vec![("a".to_string(), "//a".to_string())]);
    assert_eq!(out.name_errors, vec!["/".to_string()]);
}

#[test]
fn scan_keeps_duplicate_names() {
    // Two discovered repositories may share a name; the walker does
    // not deduplicate.
    let tree = dir(
        "root",
        &["a", "b"],
        vec![
            dir("a", &["x"], vec![leaf("x", &[".git"])]),
            dir("b", &["x"], vec![leaf("x", &[".git"])]),
        ],
    );
    let out = parse_directory("root", tree);
    assert_eq!(
        pairs(&out.repos),
        vec![
            ("x".to_string(), "root/a/x".to_string()),
            ("x".to_string(), "root/b/x".to_string()),
        ]
    );
}

#[test]
fn scan_of_tree_without_repos_is_empty() {
    let tree = dir("root", &["a"], vec![leaf("a", &["src"])]);
    let out = parse_directory("root", tree);
    assert!(out.repos.is_empty());
    assert!(out.name_errors.is_empty());
}
