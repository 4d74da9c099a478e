use rust_git::hashing::hash_content;
use rust_git::objects::{object_location, Commit, GitObject, TreeEntry};

#[test]
fn hash_of_hello_is_its_sha256() {
    assert_eq!(
        hash_content("hello"),
        "2cf24dba5fb0a30e26e83b2ac5b9e29e1b161e5c1fa7425e73043362938b9824"
    );
}

#[test]
fn hash_of_empty_text() {
    let h = hash_content("");
    assert_eq!(h, "e3b0c44298fc1c149afbf4c8996fb92427ae41e4649b934ca495991b7852b855");
    assert_eq!(h.len(), 64);
}

#[test]
fn blob_record_escapes_every_kind_of_character() {
    let blob = GitObject::Blob("a\"b\\c\nd\u{1}\t\r\u{8}\u{c}/é\u{7f}".to_string());
    assert_eq!(
        blob.encode(),
        "{\"Blob\":\"a\\\"b\\\\c\\nd\\u0001\\t\\r\\b\\f/é\u{7f}\"}"
    );
}

#[test]
fn commit_time_stamp_is_written_in_decimal() {
    let commit = GitObject::Commit(Commit {
        tree: "t".to_string(),
        parents: vec![],
        author: "a".to_string(),
        message: "m".to_string(),
        timestamp: u64::MAX,
    });
    assert!(commit.encode().ends_with(",\"timestamp\":18446744073709551615}}"));
}

#[test]
fn blob_record_and_identifier() {
    let blob = GitObject::Blob("hello".to_string());
    assert_eq!(blob.encode(), "{\"Blob\":\"hello\"}");
    assert_eq!(
        blob.id(),
        "95e9a13bafd19c43fb75bd9062b5287aeb3d2bc24ede0c6800e2c47e65c66db9"
    );
}

#[test]
fn blob_record_escapes_its_content() {
    let blob = GitObject::Blob("a\"b\\c\nd\u{1}".to_string());
    assert_eq!(blob.encode(), "{\"Blob\":\"a\\\"b\\\\c\\nd\\u0001\"}");
    assert_eq!(
        blob.id(),
        "275bab8b7787c9fdaaad3f85818b2c17273538b2f00aa3b73ebe6ecd1dbe2a64"
    );
}

#[test]
fn tree_record_lists_entries_in_order() {
    let tree = GitObject::Tree(vec![
        TreeEntry {
            mode: "100644".to_string(),
            name: "a.txt".to_string(),
            hash: "0c51127adf8cbbd14448ecc0ff2b4be07fbf48c37bc986b19bd420a5f7110ce0".to_string(),
        },
        TreeEntry {
            mode: "040000".to_string(),
            name: "dir".to_string(),
            hash: "ff586a851c817eff5ee648a8ee6d58940f46c9fab7e35db2a76ae30129abadd1".to_string(),
        },
    ]);
    assert_eq!(
        tree.encode(),
        "{\"Tree\":[{\"mode\":\"100644\",\"name\":\"a.txt\",\"hash\":\"0c51127adf8cbbd14448ecc0ff2b4be07fbf48c37bc986b19bd420a5f7110ce0\"},{\"mode\":\"040000\",\"name\":\"dir\",\"hash\":\"ff586a851c817eff5ee648a8ee6d58940f46c9fab7e35db2a76ae30129abadd1\"}]}"
    );
    assert_eq!(
        tree.id(),
        "6b7656eb7513141a00f0e96a732769254431a5b5d8e2cfc78ca21e34f6e03518"
    );
}

#[test]
fn empty_tree_record() {
    assert_eq!(GitObject::Tree(vec![]).encode(), "{\"Tree\":[]}");
}

#[test]
fn commit_record_has_fields_in_order() {
    let commit = GitObject::Commit(Commit {
        tree: "t1".to_string(),
        parents: vec!["p1".to_string(), "p2".to_string()],
        author: "User <user@example.com>".to_string(),
        message: "msg".to_string(),
        timestamp: 1700000000,
    });
    assert_eq!(
        commit.encode(),
        "{\"Commit\":{\"tree\":\"t1\",\"parents\":[\"p1\",\"p2\"],\"author\":\"User <user@example.com>\",\"message\":\"msg\",\"timestamp\":1700000000}}"
    );
    assert_eq!(
        commit.id(),
        "b2e27ce0ab4d0b2fcf7a8e036a7317254e4ffb575f5e6dcf61a5685b039ba13f"
    );
}

#[test]
fn commit_without_parents_record() {
    let commit = GitObject::Commit(Commit {
        tree: "t".to_string(),
        parents: vec![],
        author: "a".to_string(),
        message: "m".to_string(),
        timestamp: 7,
    });
    assert_eq!(
        commit.encode(),
        "{\"Commit\":{\"tree\":\"t\",\"parents\":[],\"author\":\"a\",\"message\":\"m\",\"timestamp\":7}}"
    );
}

#[test]
fn object_location_splits_after_two_bytes() {
    let (dir, file) = object_location("95e9a13b");
    assert_eq!(dir, "95");
    assert_eq!(file, "e9a13b");
}

#[test]
fn duplicate_keeps_the_object() {
    let blob = GitObject::Blob("x".to_string());
    assert_eq!(blob.duplicate().encode(), blob.encode());
}

#[test]
fn decimal_matches_serde_json() {
    for n in [0u64, 9, 10, 99, 100, 12345, 1700000000, u64::MAX - 1, u64::MAX] {
        assert_eq!(rust_git::json::decimal_of(n), serde_json::to_string(&n).unwrap());
    }
}

#[test]
fn blob_record_is_what_serde_json_writes() {
    let mut all_controls = String::new();
    for c in 0u8..0x20 {
        all_controls.push(c as char);
    }
    for s in ["", "x", "quote\"", "back\\slash", "ünï©ødé", "\u{7f}\u{2028}", all_controls.as_str()] {
        let expected = format!("{{\"Blob\":{}}}", serde_json::to_string(s).unwrap());
        assert_eq!(GitObject::Blob(s.to_string()).encode(), expected);
    }
}
