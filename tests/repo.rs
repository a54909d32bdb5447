use rgit::codec::{decode, fingerprint_and_encode, frame, hash_object, push_decimal, unframe_bytes, ObjectKind};
use rgit::error::RepoError;
use rgit::formats::{parse_head, parse_index, parse_ref, render_head, render_index};
use rgit::index::{StagingEntry, StagingIndex};
use rgit::object_id::ObjectId;
use rgit::objects::{commit_payload, parse_commit_links, tree_payload};
use rgit::repo::{Head, Repository, StageOutcome};
use rgit::store::ObjectStore;

fn hex(id: &ObjectId) -> String {
    String::from_utf8(id.to_hex()).unwrap()
}

fn staged_id(r: Result<StageOutcome, RepoError>) -> ObjectId {
    match r {
        Ok(StageOutcome::Staged(id)) => id,
        other => panic!("expected a staged outcome, got {:?}", other),
    }
}

#[test]
fn blob_ids_match_known_sha1_values() {
    let empty = hash_object(ObjectKind::Blob, b"");
    assert_eq!(hex(&empty), "e69de29bb2d1d6434b8b29ae775ad8c2e48c5391");
    let hello = hash_object(ObjectKind::Blob, b"hello\n");
    assert_eq!(hex(&hello), "ce013625030ba8dba906f756967f9e9ca394464a");
}

#[test]
fn frame_writes_header_then_payload() {
    assert_eq!(frame(ObjectKind::Blob, b"x"), b"blob 1\0x".to_vec());
    assert_eq!(frame(ObjectKind::Tree, b""), b"tree 0\0".to_vec());
    let payload = vec![7u8; 1234];
    let framed = frame(ObjectKind::Commit, &payload);
    assert_eq!(&framed[..12], b"commit 1234\0");
    assert_eq!(framed.len(), 12 + 1234);
}

#[test]
fn decimal_digits() {
    let mut out = Vec::new();
    push_decimal(&mut out, 0);
    assert_eq!(out, b"0".to_vec());
    let mut out = b"n=".to_vec();
    push_decimal(&mut out, 18446744073709551615);
    assert_eq!(out, b"n=18446744073709551615".to_vec());
}

#[test]
fn encode_then_decode_gives_header_and_payload() {
    for (kind, payload) in [
        (ObjectKind::Blob, b"".to_vec()),
        (ObjectKind::Blob, b"some file content\n".to_vec()),
        (ObjectKind::Tree, vec![0u8, 1, 2, 255, 10, 0]),
        (ObjectKind::Commit, vec![b'a'; 5000]),
    ] {
        let (id, enc) = fingerprint_and_encode(kind, &payload).unwrap();
        assert_ne!(enc, frame(kind, &payload));
        assert_eq!(decode(&enc).unwrap(), frame(kind, &payload));
        assert_eq!(id, hash_object(kind, &payload));
    }
}

#[test]
fn decode_rejects_garbage() {
    assert_eq!(decode(b"definitely not zlib"), Err(RepoError::Codec));
}

#[test]
fn same_payload_of_different_kinds_has_different_ids() {
    assert_ne!(hash_object(ObjectKind::Blob, b"abc"), hash_object(ObjectKind::Tree, b"abc"));
}

#[test]
fn unframe_checks_kind_and_length() {
    assert_eq!(unframe_bytes(b"blob 3\0abc", ObjectKind::Blob), Some(b"abc".to_vec()));
    assert_eq!(unframe_bytes(b"blob 3\0abc", ObjectKind::Tree), None);
    assert_eq!(unframe_bytes(b"blob 4\0abc", ObjectKind::Blob), None);
    assert_eq!(unframe_bytes(b"blob 03\0abc", ObjectKind::Blob), None);
    assert_eq!(unframe_bytes(b"blob 3abc", ObjectKind::Blob), None);
    assert_eq!(unframe_bytes(b"blob 0\0", ObjectKind::Blob), Some(vec![]));
}

#[test]
fn hex_round_trip_and_shards() {
    let id = hash_object(ObjectKind::Blob, b"hello\n");
    let text = id.to_hex();
    assert_eq!(ObjectId::from_hex(&text), Some(id.clone()));
    assert_eq!(id.shard_dir(), b"ce".to_vec());
    assert_eq!(id.shard_file(), b"013625030ba8dba906f756967f9e9ca394464a".to_vec());
    assert_eq!(id.digest().len(), 20);
    assert_eq!(ObjectId::from_hex(b"CE013625030BA8DBA906F756967F9E9CA394464A"), None);
    assert_eq!(ObjectId::from_hex(b"ce01"), None);
    assert_eq!(ObjectId::from_hex(b"ce013625030ba8dba906f756967f9e9ca394464g"), None);
}

#[test]
fn put_twice_stores_once() {
    let mut store = ObjectStore::new();
    let a = store.hash_and_store_obj(ObjectKind::Blob, b"x").unwrap();
    let first = store.encoded(&a).unwrap().clone();
    let b = store.hash_and_store_obj(ObjectKind::Blob, b"x").unwrap();
    assert_eq!(a, b);
    assert_eq!(store.len(), 1);
    assert_eq!(store.encoded(&a).unwrap(), &first);
    assert!(store.contains(&a));
    assert_eq!(store.ids(), vec![a]);
}

#[test]
fn get_returns_the_payload() {
    let mut store = ObjectStore::new();
    let id = store.hash_and_store_obj(ObjectKind::Blob, b"payload bytes").unwrap();
    assert_eq!(store.get(&id, ObjectKind::Blob), Ok(b"payload bytes".to_vec()));
    assert_eq!(store.get(&id, ObjectKind::Commit), Err(RepoError::CorruptObject));
}

#[test]
fn get_of_unstored_id_is_object_not_found() {
    let mut store = ObjectStore::new();
    store.hash_and_store_obj(ObjectKind::Blob, b"a").unwrap();
    let missing = hash_object(ObjectKind::Blob, b"b");
    assert!(!store.contains(&missing));
    assert_eq!(store.get(&missing, ObjectKind::Blob), Err(RepoError::ObjectNotFound));
}

#[test]
fn get_of_undecodable_object_is_corrupt() {
    let mut store = ObjectStore::new();
    let id = hash_object(ObjectKind::Blob, b"a");
    store.insert_encoded(&id, b"garbage".to_vec());
    assert_eq!(store.get(&id, ObjectKind::Blob), Err(RepoError::CorruptObject));
}

#[test]
fn staging_unchanged_content_is_a_no_op() {
    let mut repo = Repository::init();
    let first = repo.add(b"a.txt", b"x");
    let id = staged_id(first);
    match repo.add(b"a.txt", b"x") {
        Ok(StageOutcome::Unchanged(same)) => assert_eq!(same, id),
        other => panic!("expected unchanged, got {:?}", other),
    }
    assert_eq!(repo.index().len(), 1);
    let live = repo.index().live_entries();
    assert_eq!(live.len(), 1);
    assert_eq!(live[0].path, b"a.txt".to_vec());
    assert_eq!(repo.store().len(), 1);
}

#[test]
fn staging_new_content_appends() {
    let mut repo = Repository::init();
    let a = staged_id(repo.add(b"a.txt", b"x"));
    let b = staged_id(repo.add(b"a.txt", b"y"));
    assert_ne!(a, b);
    assert_eq!(repo.index().len(), 2);
    assert_eq!(repo.index().get_latest_staged_hash(b"a.txt"), Some(b.clone()));
    assert_eq!(repo.index().get_latest_staged_hash(b"b.txt"), None);
    let c = staged_id(repo.add(b"a.txt", b"x"));
    assert_eq!(c, a);
    assert_eq!(repo.index().len(), 3);
}

#[test]
fn staging_rejects_bad_paths() {
    let mut repo = Repository::init();
    assert_eq!(repo.add(b"", b"x").unwrap_err(), RepoError::InvalidName);
    assert_eq!(repo.add(b"a b", b"x").unwrap_err(), RepoError::InvalidName);
    assert_eq!(repo.add(b"a\nb", b"x").unwrap_err(), RepoError::InvalidName);
    assert_eq!(repo.index().len(), 0);
}

#[test]
fn live_entries_keep_the_latest_per_path_in_index_order() {
    let mut index = StagingIndex::new();
    let x = hash_object(ObjectKind::Blob, b"x");
    let y = hash_object(ObjectKind::Blob, b"y");
    let z = hash_object(ObjectKind::Blob, b"z");
    index.append(x.clone(), b"a".to_vec());
    index.append(y.clone(), b"b".to_vec());
    index.append(z.clone(), b"a".to_vec());
    let live = index.live_entries();
    assert_eq!(live.len(), 2);
    assert_eq!((live[0].id.clone(), live[0].path.clone()), (y, b"b".to_vec()));
    assert_eq!((live[1].id.clone(), live[1].path.clone()), (z, b"a".to_vec()));
}

#[test]
fn tree_payload_lines() {
    let x = hash_object(ObjectKind::Blob, b"hello\n");
    let entries = vec![StagingEntry { id: x.clone(), path: b"src/a.rs".to_vec() }];
    assert_eq!(
        tree_payload(&entries),
        b"100644 blob ce013625030ba8dba906f756967f9e9ca394464a\tsrc/a.rs".to_vec()
    );
    let two = vec![
        StagingEntry { id: x.clone(), path: b"a".to_vec() },
        StagingEntry { id: x, path: b"b".to_vec() },
    ];
    assert_eq!(
        String::from_utf8(tree_payload(&two)).unwrap(),
        "100644 blob ce013625030ba8dba906f756967f9e9ca394464a\ta\n100644 blob ce013625030ba8dba906f756967f9e9ca394464a\tb"
    );
    assert_eq!(tree_payload(&vec![]), Vec::<u8>::new());
}

#[test]
fn tree_of_an_empty_index() {
    let mut repo = Repository::init();
    let t = repo.create_tree().unwrap();
    assert_eq!(hex(&t), "4b825dc642cb6eb9a060e54bf8d69288fbee4904");
}

#[test]
fn framing_separates_kinds_and_payloads() {
    assert_ne!(frame(ObjectKind::Blob, b"ab"), frame(ObjectKind::Tree, b"ab"));
    assert_ne!(frame(ObjectKind::Blob, b"ab"), frame(ObjectKind::Blob, b"abc"));
    assert_ne!(hash_object(ObjectKind::Commit, b""), hash_object(ObjectKind::Blob, b""));
}

#[test]
fn build_tree_twice_gives_the_same_id() {
    let mut repo = Repository::init();
    repo.add(b"a.txt", b"x").unwrap();
    repo.add(b"b.txt", b"y").unwrap();
    let t1 = repo.create_tree().unwrap();
    let objects = repo.store().len();
    let t2 = repo.create_tree().unwrap();
    assert_eq!(t1, t2);
    assert_eq!(repo.store().len(), objects);
    assert!(repo.store().get(&t1, ObjectKind::Tree).is_ok());
}

#[test]
fn commit_on_empty_index_fails() {
    let mut repo = Repository::init();
    assert_eq!(repo.commit(b"first", b"me <me@x>", 1), Err(RepoError::EmptyStagingArea));
    assert_eq!(repo.get_parent_commit(), None);
}

#[test]
fn commits_chain_and_history_is_newest_first() {
    let mut repo = Repository::init();
    repo.add(b"a.txt", b"x").unwrap();
    let first = repo.commit(b"first", b"me <me@x>", 100).unwrap();
    let payload = repo.store().get(&first, ObjectKind::Commit).unwrap();
    let (_, parent) = parse_commit_links(&payload).unwrap();
    assert_eq!(parent, None);
    assert_eq!(repo.branch_target(b"master"), Some(first.clone()));

    repo.add(b"b.txt", b"y").unwrap();
    let second = repo.commit(b"second", b"me <me@x>", 200).unwrap();
    let payload = repo.store().get(&second, ObjectKind::Commit).unwrap();
    let (_, parent) = parse_commit_links(&payload).unwrap();
    assert_eq!(parent, Some(first.clone()));

    let history = repo.history_from(&second).unwrap();
    let ids: Vec<ObjectId> = history.iter().map(|c| c.id.clone()).collect();
    assert_eq!(ids, vec![second.clone(), first.clone()]);
    assert_eq!(history[0].parent, Some(first.clone()));
    assert_eq!(history[1].parent, None);
    let log = repo.log().unwrap();
    assert_eq!(log.len(), 2);
}

#[test]
fn commit_payload_format() {
    let tree = hash_object(ObjectKind::Blob, b"hello\n");
    let p = commit_payload(&tree, &None, b"A <a@b>", 42, b"msg");
    assert_eq!(
        String::from_utf8(p.clone()).unwrap(),
        "tree ce013625030ba8dba906f756967f9e9ca394464a\nauthor A <a@b> 42\ncommitter A <a@b> 42\n\nmsg\n"
    );
    let with_parent = commit_payload(&tree, &Some(tree.clone()), b"A <a@b>", 42, b"msg");
    assert_eq!(parse_commit_links(&with_parent), Some((tree.clone(), Some(tree.clone()))));
    assert_eq!(parse_commit_links(&p), Some((tree.clone(), None)));
    assert_eq!(parse_commit_links(b"not a commit"), None);
}

#[test]
fn branch_isolation() {
    let mut repo = Repository::init();
    repo.add(b"a.txt", b"x").unwrap();
    let c1 = repo.commit(b"first", b"me", 1).unwrap();
    repo.branch(b"dev").unwrap();
    assert_eq!(repo.branch_target(b"dev"), Some(c1.clone()));
    repo.checkout(b"dev").unwrap();
    assert_eq!(repo.get_current_ref_branch(), Some(b"dev".to_vec()));
    repo.add(b"b.txt", b"y").unwrap();
    let c2 = repo.commit(b"on dev", b"me", 2).unwrap();
    assert_ne!(c1, c2);
    assert_eq!(repo.branch_target(b"dev"), Some(c2.clone()));
    assert_eq!(repo.branch_target(b"master"), Some(c1.clone()));
}

#[test]
fn branch_errors() {
    let mut repo = Repository::init();
    assert_eq!(repo.branch(b"dev"), Err(RepoError::NoCommitsYet));
    repo.add(b"a.txt", b"x").unwrap();
    repo.commit(b"first", b"me", 1).unwrap();
    assert_eq!(repo.branch(b"master"), Err(RepoError::AlreadyExists));
    assert_eq!(repo.branch(b"bad name"), Err(RepoError::InvalidName));
    assert_eq!(repo.delete_branch(b"nope"), Err(RepoError::RefNotFound));
    repo.branch(b"dev").unwrap();
    let mut names = repo.list_branches();
    names.sort();
    assert_eq!(names, vec![b"dev".to_vec(), b"master".to_vec()]);
    repo.delete_branch(b"dev").unwrap();
    assert_eq!(repo.branch_target(b"dev"), None);
}

#[test]
fn checkout_of_a_commit_id_detaches_head() {
    let mut repo = Repository::init();
    repo.add(b"a.txt", b"x").unwrap();
    let c1 = repo.commit(b"first", b"me", 1).unwrap();
    repo.checkout(&c1.to_hex()).unwrap();
    match repo.head() {
        Head::Detached(id) => assert_eq!(id, &c1),
        other => panic!("expected detached head, got {:?}", other),
    }
    assert_eq!(repo.get_current_ref_branch(), None);
    assert_eq!(repo.get_parent_commit(), None);
    assert_eq!(repo.head_commit_id(), Some(c1.clone()));
    repo.add(b"b.txt", b"y").unwrap();
    assert_eq!(repo.commit(b"second", b"me", 2), Err(RepoError::DetachedHead));
    repo.checkout(b"master").unwrap();
    assert_eq!(repo.get_current_ref_branch(), Some(b"master".to_vec()));
}

#[test]
fn checkout_of_unknown_names_fails() {
    let mut repo = Repository::init();
    repo.add(b"a.txt", b"x").unwrap();
    repo.commit(b"first", b"me", 1).unwrap();
    assert_eq!(repo.checkout(b"nope"), Err(RepoError::RefNotFound));
    let blob = hash_object(ObjectKind::Blob, b"x");
    assert_eq!(repo.checkout(&blob.to_hex()), Err(RepoError::RefNotFound));
    let unstored = hash_object(ObjectKind::Blob, b"never stored");
    assert_eq!(repo.checkout(&unstored.to_hex()), Err(RepoError::RefNotFound));
    assert_eq!(repo.get_current_ref_branch(), Some(b"master".to_vec()));
}

#[test]
fn tags_copy_the_tip_and_never_move() {
    let mut repo = Repository::init();
    assert_eq!(repo.tag(b"v1"), Err(RepoError::NoCommitsYet));
    repo.add(b"a.txt", b"x").unwrap();
    let c1 = repo.commit(b"first", b"me", 1).unwrap();
    repo.tag(b"v1").unwrap();
    assert_eq!(repo.tag(b"v1"), Err(RepoError::AlreadyExists));
    repo.add(b"a.txt", b"y").unwrap();
    let c2 = repo.commit(b"second", b"me", 2).unwrap();
    assert_eq!(repo.tag_target(b"v1"), Some(c1.clone()));
    assert_eq!(repo.resolve(b"v1"), Some(c1.clone()));
    assert_eq!(repo.resolve(b"master"), Some(c2.clone()));
    assert_eq!(repo.resolve(&c2.to_hex()), Some(c2.clone()));
    assert_eq!(repo.list_tags(), vec![b"v1".to_vec()]);
    assert_eq!(repo.delete_tag(b"v2"), Err(RepoError::RefNotFound));
    repo.delete_tag(b"v1").unwrap();
    assert_eq!(repo.list_tags(), Vec::<Vec<u8>>::new());
}

#[test]
fn missing_parent_is_corrupt_history() {
    let mut repo = Repository::init();
    repo.add(b"a.txt", b"x").unwrap();
    repo.commit(b"first", b"me", 1).unwrap();
    repo.add(b"a.txt", b"y").unwrap();
    let second = repo.commit(b"second", b"me", 2).unwrap();
    let mut partial = Repository::init();
    partial.load_object(&second, repo.store().encoded(&second).unwrap().clone());
    assert_eq!(partial.history_from(&second).unwrap_err(), RepoError::CorruptHistory);
    let unknown = hash_object(ObjectKind::Commit, b"x");
    assert_eq!(partial.history_from(&unknown).unwrap_err(), RepoError::ObjectNotFound);
    assert_eq!(Repository::init().log().unwrap_err(), RepoError::NoCommitsYet);
}

#[test]
fn head_text_round_trip() {
    let head = Head::Branch(b"master".to_vec());
    let text = render_head(&head);
    assert_eq!(text, b"ref: refs/heads/master".to_vec());
    match parse_head(b"ref: refs/heads/dev\n") {
        Some(Head::Branch(b)) => assert_eq!(b, b"dev".to_vec()),
        other => panic!("unexpected {:?}", other),
    }
    let id = hash_object(ObjectKind::Blob, b"x");
    match parse_head(&render_head(&Head::Detached(id.clone()))) {
        Some(Head::Detached(d)) => assert_eq!(d, id),
        other => panic!("unexpected {:?}", other),
    }
    assert!(parse_head(b"ref: refs/heads/").is_none());
    assert!(parse_head(b"garbage").is_none());
}

#[test]
fn ref_text_allows_a_trailing_newline() {
    let id = hash_object(ObjectKind::Blob, b"x");
    let mut text = id.to_hex();
    assert_eq!(parse_ref(&text), Some(id.clone()));
    text.push(b'\n');
    assert_eq!(parse_ref(&text), Some(id.clone()));
    assert_eq!(parse_ref(b"xyz\n"), None);
}

#[test]
fn index_text_round_trip_and_tolerance() {
    let mut index = StagingIndex::new();
    let x = hash_object(ObjectKind::Blob, b"x");
    let y = hash_object(ObjectKind::Blob, b"y");
    index.append(x.clone(), b"a.txt".to_vec());
    index.append(y.clone(), b"dir/b.txt".to_vec());
    let text = render_index(&index);
    let expected = format!("{} a.txt\n{} dir/b.txt\n", hex(&x), hex(&y));
    assert_eq!(text, expected.into_bytes());
    let back = parse_index(&text);
    assert_eq!(back.len(), 2);
    assert_eq!((back[0].id.clone(), back[0].path.clone()), (x.clone(), b"a.txt".to_vec()));
    assert_eq!((back[1].id.clone(), back[1].path.clone()), (y.clone(), b"dir/b.txt".to_vec()));

    let messy = format!("junk\n{} a.txt\n\n{} two words\n{} last", hex(&x), hex(&y), hex(&y));
    let parsed = parse_index(messy.as_bytes());
    assert_eq!(parsed.len(), 2);
    assert_eq!(parsed[0].path, b"a.txt".to_vec());
    assert_eq!(parsed[1].path, b"last".to_vec());
}
