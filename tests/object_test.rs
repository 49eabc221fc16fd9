use good_git::error::GitError;
use good_git::object::{hash, Blob, File, Mode, Object};

#[test]
fn test_object_parse_header() {
    assert_eq!(
        Object::parse_header(b"blob 16\0").unwrap(),
        ("blob".to_string(), 16, 7)
    );
}

#[test]
fn test_object_parse_header_incorrect_format() {
    assert_eq!(
        Object::parse_header(b"blob 16").unwrap_err().to_string(),
        "Incorrect header format"
    );
    assert_eq!(
        Object::parse_header(b"blob").unwrap_err().to_string(),
        "Incorrect header format"
    );
}

#[test]
fn test_object_from_bytes_for_blob() {
    let s = b"blob 16\0what is up, doc?";
    let object = Object::from_bytes(s.as_ref()).unwrap();
    let Object::Blob(blob) = object else {
        panic!("Expected a Blob");
    };
    assert_eq!(blob.content, b"what is up, doc?");
}

#[test]
fn test_object_from_bytes_for_tree() {
    let s = b"tree 107\0\
        100644 file1.txt\0\x01\x02\x03\x04\x05\x06\x07\x08\x09\x0a\x0b\x0c\x0d\x0e\x0f\x10\x11\x12\x13\x14\
        100644 file2.txt\0\x51\x52\x53\x54\x55\x56\x57\x58\x59\x5a\x5b\x5c\x5d\x5e\x5f\x60\x61\x62\x63\x64\
        40000 folder\0\x81\x82\x83\x84\x85\x86\x87\x88\x89\x8a\x8b\x8c\x8d\x8e\x8f\x90\x91\x92\x93\x94";
    let object = Object::from_bytes(s.as_ref()).unwrap();
    let Object::Tree(tree) = object else {
        panic!("Expected a tree");
    };
    assert_eq!(
        tree.files,
        vec![
            File {
                mode: Mode::NormalFile,
                name: "file1.txt".to_string(),
                hash: "0102030405060708090a0b0c0d0e0f1011121314".to_string(),
            },
            File {
                mode: Mode::NormalFile,
                name: "file2.txt".to_string(),
                hash: "5152535455565758595a5b5c5d5e5f6061626364".to_string(),
            },
            File {
                mode: Mode::Tree,
                name: "folder".to_string(),
                hash: "8182838485868788898a8b8c8d8e8f9091929394".to_string(),
            },
        ]
    );
}

#[test]
fn test_object_from_bytes_for_commit() {
    let s = b"commit 118\0\
tree abc123
parent 987xyz
author good_git <good@git.com> 1234 +0100

Add good git

This commit adds a good git client
";
    let object = Object::from_bytes(s.as_ref()).unwrap();
    let Object::Commit(commit) = object else {
        panic!("Expected a commit");
    };
    assert_eq!(commit.tree, "abc123");
    assert_eq!(commit.parent, "987xyz");
    assert_eq!(commit.author, "good_git <good@git.com> 1234 +0100");
    assert_eq!(commit.committer, "");
    assert_eq!(
        commit.message,
        "Add good git\n\nThis commit adds a good git client"
    );
}

#[test]
fn test_object_from_bytes_for_commit_with_incorrect_format() {
    let s = b"commit 18\0\
tree abc123
parent";
    let err = Object::from_bytes(s.as_ref()).unwrap_err().to_string();
    assert_eq!(err, "Invalid line");
}

#[test]
fn test_object_from_bytes_for_tree_incorrect_hash_length() {
    let s = b"tree 18\0\
        100644 file1.txt\0\x01";
    let err = Object::from_bytes(s.as_ref()).unwrap_err().to_string();
    assert_eq!(err, "Failed to read hash");
}

#[test]
fn test_object_from_bytes_for_tree_invalid_mode() {
    let s = b"tree 7\0\
        123456 ";
    let err = Object::from_bytes(s.as_ref()).unwrap_err().to_string();
    assert_eq!(err, "Failed to parse mode");
}

#[test]
fn test_object_from_bytes_incorrect_header_size() {
    let s = b"blob 0\0hi";
    let err = Object::from_bytes(s.as_ref()).unwrap_err().to_string();
    assert_eq!(err, "Incorrect header length");
}

#[test]
fn test_blob_hash_is_correct() {
    let blob = Blob::new(b"what is up, doc?".to_vec());
    assert_eq!(blob.hash(), "bd9dbf5aae1a3862dd1526723246b20206e5fc37");
}

#[test]
fn test_hash_is_correct() {
    let s = b"blob 16\0what is up, doc?";
    assert_eq!(hash(s), "bd9dbf5aae1a3862dd1526723246b20206e5fc37");
}

#[test]
fn header_with_null_before_space_is_malformed() {
    let err = Object::parse_header(b"blob\0 16").unwrap_err();
    assert!(matches!(err, GitError::HeaderFormat));
}

#[test]
fn header_size_must_be_a_number() {
    let err = Object::from_bytes(b"blob x1\0").unwrap_err();
    assert!(matches!(err, GitError::SizeParse));
    let ok = Object::from_bytes(b"blob +2\0hi").unwrap();
    assert!(matches!(ok, Object::Blob(_)));
}

#[test]
fn unknown_object_type_is_rejected() {
    let err = Object::from_bytes(b"note 2\0hi").unwrap_err();
    assert_eq!(err.to_string(), "Unknown object type");
}

#[test]
fn tree_entry_without_space_fails_to_read_mode() {
    let err = Object::from_bytes(b"tree 6\0100644").unwrap_err();
    assert_eq!(err.to_string(), "Failed to read mode");
}

#[test]
fn tree_entry_without_null_fails_to_read_name() {
    let err = Object::from_bytes(b"tree 10\0100644 abc").unwrap_err();
    assert_eq!(err.to_string(), "Failed to read file name");
}

#[test]
fn empty_tree_has_no_entries() {
    let Object::Tree(tree) = Object::from_bytes(b"tree 0\0").unwrap() else {
        panic!("Expected a tree");
    };
    assert!(tree.files.is_empty());
}

#[test]
fn commit_that_is_not_utf8_is_rejected() {
    let err = Object::from_bytes(b"commit 2\0\xff\n").unwrap_err();
    assert!(matches!(err, GitError::InvalidUtf8));
}

#[test]
fn commit_lines_drop_carriage_returns_and_keep_unknown_keys_out() {
    let s = b"commit 55\0tree t1\r\ngpgsig x\nencoding latin1\ncommitter c\n\r\nl1\r\nl2\n";
    let Object::Commit(c) = Object::from_bytes(s).unwrap() else {
        panic!("Expected a commit");
    };
    assert_eq!(c.tree, "t1");
    assert_eq!(c.encoding, "latin1");
    assert_eq!(c.committer, "c");
    assert_eq!(c.parent, "");
    assert_eq!(c.message, "l1\nl2");
}

#[test]
fn mode_strings_round_trip() {
    for m in [Mode::NormalFile, Mode::Executable, Mode::SymbolicLink, Mode::Tree, Mode::Submodule] {
        assert_eq!(Mode::from_mode_str(m.mode_str()).unwrap(), m);
    }
    assert_eq!(Mode::Tree.mode_str(), "40000");
    assert!(Mode::from_mode_str("100600").is_err());
}

#[test]
fn entry_type_labels() {
    let f = |mode| File { mode, name: "n".to_string(), hash: String::new() };
    assert_eq!(f(Mode::Executable).type_str(), "blob");
    assert_eq!(f(Mode::SymbolicLink).type_str(), "symlink");
    assert_eq!(f(Mode::Tree).type_str(), "tree");
    assert_eq!(f(Mode::Submodule).type_str(), "submodule");
}

#[test]
fn distinct_blobs_have_distinct_identifiers() {
    let a = Blob::new(b"test content\n".to_vec()).hash();
    let b = Blob::new(b"what is up, doc?".to_vec()).hash();
    assert_eq!(a, "d670460b4b4aece5915caf5c68d12f560a9fe3e4");
    assert_ne!(a, b);
    assert_eq!(a, Blob::new(b"test content\n".to_vec()).hash());
}
