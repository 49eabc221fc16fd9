use good_git::error::GitError;
use good_git::object::{Commit, Object};
use good_git::refs::RefWalk;
use good_git::repo::Repo;
use good_git::store::{resolve_revision, revision_shard};
use good_git::{cat_file, hash_object, log, show_ref, HashObjectMode, LogWalk};

fn names(v: &[&str]) -> Vec<String> {
    v.iter().map(|s| s.to_string()).collect()
}

fn stored(content: &[u8]) -> (String, Vec<u8>) {
    let repo = Repo::new("/repo");
    let mut out = Vec::new();
    let w = hash_object(HashObjectMode::Write(&repo), content, &mut out).unwrap();
    let id = String::from_utf8(out).unwrap().trim_end().to_string();
    (id, w.data)
}

#[test]
fn test_hash_object() {
    let mut stdout = Vec::new();
    let write = hash_object(HashObjectMode::HashOnly, "test content\n".as_bytes(), &mut stdout);
    assert!(write.is_none());
    assert_eq!(stdout, b"d670460b4b4aece5915caf5c68d12f560a9fe3e4\n");
}

#[test]
fn hash_object_write_plans_the_sharded_path() {
    let repo = Repo::new("/tmp/r");
    let mut stdout = Vec::new();
    let w = hash_object(HashObjectMode::Write(&repo), b"test content\n", &mut stdout).unwrap();
    assert_eq!(w.dir, "/tmp/r/.git/objects/d6");
    assert_eq!(w.path, "/tmp/r/.git/objects/d6/70460b4b4aece5915caf5c68d12f560a9fe3e4");
    let Object::Blob(b) = Object::from_compressed(&w.data).unwrap() else {
        panic!("Expected a Blob");
    };
    assert_eq!(b.content, b"test content\n");
}

#[test]
fn writing_the_same_blob_twice_is_idempotent() {
    let (id1, data1) = stored(b"same bytes");
    let (id2, data2) = stored(b"same bytes");
    assert_eq!(id1, id2);
    assert_eq!(data1, data2);
    let Object::Blob(b) = Object::from_compressed(&data2).unwrap() else {
        panic!("Expected a Blob");
    };
    assert_eq!(b.content, b"same bytes");
}

#[test]
fn corrupt_store_bytes_are_rejected() {
    let err = Object::from_compressed(b"not zlib").unwrap_err();
    assert!(matches!(err, GitError::Corrupt));
}

#[test]
fn short_prefix_resolves_like_the_full_identifier() {
    let listing = names(&["70460b4b4aece5915caf5c68d12f560a9fe3e4", "00000000000000000000000000000000000000"]);
    let full = resolve_revision("d670460b4b4aece5915caf5c68d12f560a9fe3e4", &listing).unwrap();
    let short = resolve_revision("d670", &listing).unwrap();
    assert_eq!(full, "d670460b4b4aece5915caf5c68d12f560a9fe3e4");
    assert_eq!(short, full);
}

#[test]
fn ambiguous_prefix_lists_every_candidate() {
    let listing = names(&["34aaaa", "34bbbb", "99cccc"]);
    let err = resolve_revision("1234", &listing).unwrap_err();
    let GitError::Ambiguous(c) = &err else {
        panic!("Expected an ambiguous reference");
    };
    assert_eq!(c, &names(&["1234aaaa", "1234bbbb"]));
    assert_eq!(err.to_string(), "Ambiguous reference: [\"1234aaaa\", \"1234bbbb\"]");
}

#[test]
fn unmatched_or_short_revisions_are_not_found() {
    let listing = names(&["70460b4b4aece5915caf5c68d12f560a9fe3e4"]);
    for rev in ["", "d", "d6", "d67", "hello"] {
        let err = resolve_revision(rev, &listing).unwrap_err();
        assert_eq!(err.to_string(), "Object not found");
    }
    assert!(revision_shard("d67").is_none());
    assert_eq!(revision_shard("d670"), Some(("d6".to_string(), "70".to_string())));
}

#[test]
fn cat_file_prints_blob_with_newline() {
    let (_, data) = stored(b"test content\n");
    let object = Object::from_compressed(&data).unwrap();
    let mut stdout = Vec::new();
    cat_file(&object, &mut stdout).unwrap();
    assert_eq!(stdout, b"test content\n\n");
}

#[test]
fn cat_file_lists_tree_entries_in_columns() {
    let mut s = b"tree 66\0".to_vec();
    s.extend_from_slice(b"100644 test.txt\0");
    s.extend_from_slice(&[0xd6, 0x70, 0x46, 0x0b, 0x4b, 0x4a, 0xec, 0xe5, 0x91, 0x5c, 0xaf, 0x5c, 0x68, 0xd1, 0x2f, 0x56, 0x0a, 0x9f, 0xe3, 0xe4]);
    s.extend_from_slice(b"40000 sub\0");
    s.extend_from_slice(&[0x12; 20]);
    let object = Object::from_bytes(&s).unwrap();
    let mut stdout = Vec::new();
    cat_file(&object, &mut stdout).unwrap();
    assert_eq!(
        std::str::from_utf8(&stdout).unwrap(),
        "100644 blob d670460b4b4aece5915caf5c68d12f560a9fe3e4    test.txt\n 40000 tree 1212121212121212121212121212121212121212    sub\n"
    );
}

#[test]
fn cat_file_refuses_binary_blob() {
    let object = Object::from_bytes(b"blob 1\0\xff").unwrap();
    let mut stdout = Vec::new();
    assert!(matches!(cat_file(&object, &mut stdout), Err(GitError::InvalidUtf8)));
    assert!(stdout.is_empty());
}

fn commit(parent: &str, committer: &str, message: &str) -> Object {
    Object::Commit(Commit {
        tree: "99887766554433221100aabbccddeeff00112233".to_string(),
        parent: parent.to_string(),
        author: "Bob <hello@bob.test>".to_string(),
        committer: committer.to_string(),
        encoding: String::new(),
        message: message.to_string(),
    })
}

#[test]
fn cat_file_shows_commit_headers_then_message() {
    let object = commit("", "Alice <bye@alice.test>", "This is a good commit");
    let mut stdout = Vec::new();
    cat_file(&object, &mut stdout).unwrap();
    assert_eq!(
        stdout,
        b"tree: 99887766554433221100aabbccddeeff00112233\nparent: \nauthor: Bob <hello@bob.test>\ncommitter: Alice <bye@alice.test>\n\nThis is a good commit\n"
    );
}

fn walk(start: &str, store: &[(&str, Object)]) -> Vec<u8> {
    let mut w = LogWalk::new(start);
    let mut stdout = Vec::new();
    while let Some(rev) = w.next_rev() {
        let rev = rev.to_string();
        let (id, object) = store.iter().find(|(id, _)| id.starts_with(&rev)).unwrap();
        log(&mut w, id, object, &mut stdout);
    }
    stdout
}

#[test]
fn log_walks_parents_to_the_root() {
    let store = [
        ("c2c2c2c2", commit("c1c1c1c1", "Carol", "third\nmore")),
        ("c1c1c1c1", commit("c0c0c0c0", "Bob", "second")),
        ("c0c0c0c0", commit("", "Alice", "first")),
    ];
    assert_eq!(
        walk("c2c2c2c2", &store),
        b"c2c2c2 - third - \"Carol\"\nc1c1c1 - second - \"Bob\"\nc0c0c0 - first - \"Alice\"\n"
    );
}

#[test]
fn log_lines_start_with_the_resolved_identifier() {
    let store = [
        ("abcdef0123", commit("", "Alice", "only")),
    ];
    assert_eq!(walk("abcd", &store), b"abcdef - only - \"Alice\"\n");
}

#[test]
fn log_of_a_blob_or_tree_is_empty() {
    let store = [
        ("b0b0b0b0", Object::from_bytes(b"blob 1\0x").unwrap()),
        ("t0t0t0t0", Object::from_bytes(b"tree 0\0").unwrap()),
    ];
    assert!(walk("b0b0b0b0", &store).is_empty());
    assert!(walk("t0t0t0t0", &store).is_empty());
}

fn resolve(start: &str, files: &[(&str, &str)]) -> Result<String, GitError> {
    let mut w = RefWalk::new(start);
    loop {
        let content = files.iter().find(|(n, _)| *n == w.current_ref()).map(|(_, c)| *c);
        if let Some(done) = w.step(content) {
            return done;
        }
    }
}

#[test]
fn test_find_ref_existing() {
    let files = [("refs/heads/main", "commit_hash\n")];
    assert_eq!(resolve("refs/heads/main", &files).unwrap(), "commit_hash");
}

#[test]
fn test_find_ref_non_existing() {
    let result = resolve("non_existing", &[]);
    assert!(result.is_err());
    let err = result.unwrap_err().to_string();
    assert_eq!(err, "Reference not found: non_existing");
}

#[test]
fn test_find_ref_with_reference() {
    let files = [
        ("refs/heads/main", "ref: refs/heads/feature\n"),
        ("refs/heads/feature", "commit_hash"),
    ];
    assert_eq!(resolve("refs/heads/main", &files).unwrap(), "commit_hash");
}

#[test]
fn reference_cycles_are_rejected() {
    let own = [("refs/heads/loop", "ref: refs/heads/loop\n")];
    assert!(matches!(resolve("refs/heads/loop", &own), Err(GitError::RefCycle(_))));
    let pair = [("refs/heads/a", "ref: refs/heads/b"), ("refs/heads/b", "ref: refs/heads/a")];
    let err = resolve("refs/heads/a", &pair).unwrap_err();
    assert_eq!(err.to_string(), "Reference cycle at: refs/heads/a");
}

#[test]
fn show_ref_sorts_by_name() {
    let found = vec![
        ("refs/tags/v1".to_string(), "bbbb".to_string()),
        ("refs/heads/main".to_string(), "aaaa".to_string()),
        ("refs/heads/dev".to_string(), "cccc".to_string()),
    ];
    let mut stdout = Vec::new();
    show_ref(&found, &mut stdout);
    assert_eq!(stdout, b"cccc refs/heads/dev\naaaa refs/heads/main\nbbbb refs/tags/v1\n");
}

#[test]
fn git_dir_is_under_the_root() {
    assert_eq!(Repo::new("/a/b").git_dir(), "/a/b/.git");
}

#[test]
fn object_path_splits_the_identifier() {
    let repo = Repo::new("/r");
    assert_eq!(
        repo.object_path("d670460b4b4aece5915caf5c68d12f560a9fe3e4").unwrap(),
        "/r/.git/objects/d6/70460b4b4aece5915caf5c68d12f560a9fe3e4"
    );
    assert_eq!(repo.object_path("d").unwrap_err().to_string(), "Invalid hash");
    assert!(matches!(repo.object_path("a\u{e9}bc"), Err(GitError::InvalidHash)));
    assert_eq!(repo.object_path("\u{e9}bc").unwrap(), "/r/.git/objects/\u{e9}/bc");
}

#[test]
fn encoded_objects_decode_to_themselves() {
    let tree = b"tree 31\0100644 a b\0\x01\x02\x03\x04\x05\x06\x07\x08\x09\x0a\x0b\x0c\x0d\x0e\x0f\x10\x11\x12\x13\x14";
    let commit = b"commit 53\0tree t\nparent p\nauthor a b\ncommitter c\n\nsubject\n\nbody";
    for bytes in [&b"blob 3\0a\nb"[..], &tree[..], &commit[..]] {
        let object = Object::from_bytes(bytes).unwrap();
        assert_eq!(object.encode(), bytes.to_vec());
    }
}
