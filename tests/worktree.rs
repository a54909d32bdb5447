use rgit::codec::ObjectKind;
use rgit::config::{get_config, set_config};
use rgit::index::StagingEntry;
use rgit::repo::Repository;
use rgit::worktree::compute_file_hash;
use rgit::codec::hash_object;

fn file(path: &str, content: &[u8]) -> StagingEntry {
    StagingEntry { id: compute_file_hash(content), path: path.as_bytes().to_vec() }
}

#[test]
fn compute_file_hash_is_the_blob_id() {
    assert_eq!(compute_file_hash(b"abc"), hash_object(ObjectKind::Blob, b"abc"));
    assert_ne!(compute_file_hash(b"abc"), hash_object(ObjectKind::Tree, b"abc"));
}

#[test]
fn status_reports_untracked_and_modified() {
    let mut repo = Repository::init();
    repo.add(b"a.txt", b"one").unwrap();
    repo.add(b"b.txt", b"two").unwrap();
    repo.add(b"a.txt", b"one again").unwrap();
    let working = vec![file("a.txt", b"one again"), file("b.txt", b"changed"), file("c.txt", b"new")];
    let status = repo.status(&working);
    assert_eq!(status.untracked, vec![b"c.txt".to_vec()]);
    assert_eq!(status.modified, vec![b"b.txt".to_vec()]);
    let empty = repo.status(&vec![]);
    assert!(empty.untracked.is_empty() && empty.modified.is_empty());
}

#[test]
fn diff_compares_live_entries_only() {
    let mut repo = Repository::init();
    repo.add(b"a.txt", b"old").unwrap();
    repo.add(b"b.txt", b"same").unwrap();
    repo.add(b"a.txt", b"new").unwrap();
    let working = vec![file("a.txt", b"new"), file("b.txt", b"edited")];
    assert_eq!(repo.diff(&working), vec![b"b.txt".to_vec()]);
    let working = vec![file("a.txt", b"old")];
    assert_eq!(repo.diff(&working), vec![b"a.txt".to_vec()]);
}

#[test]
fn config_lookup_in_sections() {
    let text = b"[core]\n    name = other\n[user]\n    name = Alice Smith\n    email = alice@example.com\n    name = later\n\n[other]\n    email = no\n";
    assert_eq!(get_config(text, b"[user]", b"name"), Some(b"Alice Smith".to_vec()));
    assert_eq!(get_config(text, b"[user]", b"email"), Some(b"alice@example.com".to_vec()));
    assert_eq!(get_config(text, b"[core]", b"name"), Some(b"other".to_vec()));
    assert_eq!(get_config(text, b"[user]", b"missing"), None);
    assert_eq!(get_config(b"name = x\n", b"[user]", b"name"), None);
    assert_eq!(get_config(b"", b"[user]", b"name"), None);
}

#[test]
fn config_set_adds_a_missing_section() {
    let text = set_config(b"", b"[user]", b"name", b"Bob");
    assert_eq!(text, b"[user]\n    name = Bob\n".to_vec());
    assert_eq!(get_config(&text, b"[user]", b"name"), Some(b"Bob".to_vec()));
    let text = set_config(b"[core]\n    x = 1", b"[user]", b"name", b"Bob");
    assert_eq!(text, b"[core]\n    x = 1\n[user]\n    name = Bob\n".to_vec());
}

#[test]
fn config_set_replaces_the_key_in_place() {
    let text = b"[user]\n    name = Bob\n    email = b@x\n[core]\n    name = c\n";
    let updated = set_config(text, b"[user]", b"name", b"Carol");
    assert_eq!(updated, b"[user]\n    name = Carol\n    email = b@x\n[core]\n    name = c\n".to_vec());
    assert_eq!(get_config(&updated, b"[user]", b"name"), Some(b"Carol".to_vec()));
    assert_eq!(get_config(&updated, b"[core]", b"name"), Some(b"c".to_vec()));
}

#[test]
fn config_set_puts_a_new_key_under_the_existing_header() {
    let text = b"[user]\n    email = e@x\n[core]\n    x = 1\n";
    let updated = set_config(text, b"[user]", b"name", b"Dan");
    assert_eq!(updated, b"[user]\n    name = Dan\n    email = e@x\n[core]\n    x = 1\n".to_vec());
    assert_eq!(get_config(&updated, b"[user]", b"email"), Some(b"e@x".to_vec()));
    assert_eq!(get_config(&updated, b"[user]", b"name"), Some(b"Dan".to_vec()));
}
