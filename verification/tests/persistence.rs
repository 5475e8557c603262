//! Tests for the persisted text format: exact encodings, the round
//! trip, and what decoding rejects.

use gitfindr::codec::{decode_registry, encode_registry};
use gitfindr::registry::GitFindrConfig;
use gitfindr::repo::RepoData;
use gitfindr::validate::validate_repo;

fn registry_of(records: &[(&str, &str)]) -> GitFindrConfig {
    let mut cfg = GitFindrConfig::default();
    for (name, path) in records {
        cfg.add_repo(RepoData::new(name, path)).unwrap();
    }
    cfg
}

fn sorted_pairs(cfg: &GitFindrConfig) -> Vec<(String, String)> {
    let mut v: Vec<(String, String)> =
        cfg.list().iter().map(|r| (r.name.clone(), r.path.clone())).collect();
    v.sort();
    v
}

#[test]
fn encode_empty_registry_is_empty_text() {
    assert_eq!(encode_registry(&GitFindrConfig::default()), "");
}

#[test]
fn encode_writes_alias_line_then_path_line() {
    let cfg = registry_of(&[("a", "root/a")]);
    assert_eq!(encode_registry(&cfg), "a\nroot/a\n");
}

#[test]
fn encode_escapes_backslash_and_newline() {
    let cfg = registry_of(&[("a\\b", "x\ny")]);
    assert_eq!(encode_registry(&cfg), "a\\\\b\nx\\ny\n");
}

#[test]
fn round_trip_keeps_every_pair() {
    let cfg = registry_of(&[
        ("a", "root/a"),
        ("weird\\name", "pa\nth"),
        ("", "empty-alias-path"),
        ("unicode", "w\u{00e9}g/\u{00fc}t"),
    ]);
    let decoded = decode_registry(&encode_registry(&cfg)).unwrap();
    assert_eq!(sorted_pairs(&decoded), sorted_pairs(&cfg));
}

#[test]
fn decode_empty_text_is_empty_registry() {
    let cfg = decode_registry("").unwrap();
    assert!(cfg.is_empty());
}

#[test]
fn decode_reads_records_back() {
    let cfg = decode_registry("a\npa\nb\npb\n").unwrap();
    assert_eq!(cfg.get_repo("a").unwrap().path, "pa");
    assert_eq!(cfg.get_repo("b").unwrap().path, "pb");
    assert_eq!(cfg.list().len(), 2);
}

#[test]
fn decode_rejects_unterminated_field() {
    assert!(decode_registry("a").is_none());
}

#[test]
fn decode_rejects_record_with_missing_path_line() {
    assert!(decode_registry("a\n").is_none());
}

#[test]
fn decode_rejects_bad_escape() {
    assert!(decode_registry("a\\qb\npath\n").is_none());
    assert!(decode_registry("a\\\npath\n").is_none());
}

#[test]
fn decode_rejects_duplicate_alias() {
    assert!(decode_registry("x\np1\nx\np2\n").is_none());
}

#[test]
fn failed_add_leaves_registry_persistable_unchanged() {
    // Registering a path that is not a repository fails, the registry
    // is untouched, and persisting it afterwards still works.
    let mut cfg = registry_of(&[("kept", "root/kept")]);
    let before = encode_registry(&cfg);
    let entries = vec!["src".to_string()];
    let outcome = match validate_repo(&entries) {
        Ok(()) => cfg.add_repo(RepoData::new("x", "root/x")).map_err(|_| ()),
        Err(_) => Err(()),
    };
    assert!(outcome.is_err());
    assert!(cfg.get_repo("x").is_none());
    assert_eq!(encode_registry(&cfg), before);
}
