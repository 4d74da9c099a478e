use rust_git::index::Index;
use rust_git::objects::{Commit, GitObject, TreeEntry};
use rust_git::restore::{build_index_from_tree, restore_tree, restore_working_directory, WorkAction};
use rust_git::store::{GitError, ObjectStore};
use rust_git::tree::build_root_tree;

fn entry(mode: &str, name: &str, hash: &str) -> TreeEntry {
    TreeEntry { mode: mode.to_string(), name: name.to_string(), hash: hash.to_string() }
}

fn commit_of(tree: &str) -> GitObject {
    GitObject::Commit(Commit {
        tree: tree.to_string(),
        parents: vec![],
        author: "User <user@example.com>".to_string(),
        message: "m".to_string(),
        timestamp: 1,
    })
}

/// A store holding a commit "c1" of the files a.txt = "A" and dir/b.txt = "B".
fn sample_store() -> (ObjectStore, Index) {
    let mut store = ObjectStore::new();
    let a = GitObject::Blob("A".to_string());
    let b = GitObject::Blob("B".to_string());
    let ha = a.id();
    let hb = b.id();
    store.insert(ha.clone(), a);
    store.insert(hb.clone(), b);
    let mut index = Index::new();
    index.insert("a.txt".to_string(), ha.clone());
    index.insert("dir/b.txt".to_string(), hb.clone());
    let (root, _) = build_root_tree(&index);
    let sub = GitObject::Tree(vec![entry("100644", "b.txt", &hb)]);
    let sub_hash = sub.id();
    store.insert(sub_hash.clone(), sub);
    let tree = GitObject::Tree(vec![entry("100644", "a.txt", &ha), entry("040000", "dir", &sub_hash)]);
    assert_eq!(tree.id(), root);
    store.insert(root.clone(), tree);
    store.insert("c1".to_string(), commit_of(&root));
    (store, index)
}

#[test]
fn checkout_writes_files_and_rebuilds_the_index() {
    let (store, index) = sample_store();
    let plan = restore_working_directory(&store, "c1");
    assert_eq!(
        plan.actions,
        vec![
            WorkAction::WriteFile("./a.txt".to_string(), "A".to_string()),
            WorkAction::EnsureDir("./dir".to_string()),
            WorkAction::WriteFile("./dir/b.txt".to_string(), "B".to_string()),
        ]
    );
    let rebuilt = match plan.index {
        Ok(i) => i,
        Err(e) => panic!("checkout failed: {:?}", e),
    };
    assert_eq!(rebuilt.entries(), index.entries());
}

#[test]
fn checkout_of_missing_commit() {
    let (store, _) = sample_store();
    let plan = restore_working_directory(&store, "nope");
    assert!(plan.actions.is_empty());
    assert!(matches!(plan.index, Err(GitError::ObjectNotFound)));
}

#[test]
fn checkout_of_something_not_a_commit() {
    let mut store = ObjectStore::new();
    store.insert("b".to_string(), GitObject::Blob("x".to_string()));
    let plan = restore_working_directory(&store, "b");
    assert!(matches!(plan.index, Err(GitError::NotACommit)));
}

#[test]
fn checkout_stops_at_a_missing_blob_after_earlier_writes() {
    let mut store = ObjectStore::new();
    store.insert("hb".to_string(), GitObject::Blob("B".to_string()));
    store.insert(
        "t".to_string(),
        GitObject::Tree(vec![entry("100644", "b", "hb"), entry("100644", "c", "gone")]),
    );
    store.insert("c".to_string(), commit_of("t"));
    let plan = restore_working_directory(&store, "c");
    assert_eq!(plan.actions, vec![WorkAction::WriteFile("./b".to_string(), "B".to_string())]);
    assert!(matches!(plan.index, Err(GitError::ObjectNotFound)));
}

#[test]
fn restore_rejects_a_tree_entry_that_is_not_a_blob() {
    let mut store = ObjectStore::new();
    store.insert("t".to_string(), GitObject::Tree(vec![entry("100644", "x", "t")]));
    let (actions, err) = restore_tree(&store, "t", ".");
    assert!(actions.is_empty());
    assert_eq!(err, Some(GitError::NotABlob));
}

#[test]
fn restore_rejects_a_directory_that_is_not_a_tree() {
    let mut store = ObjectStore::new();
    store.insert("hb".to_string(), GitObject::Blob("B".to_string()));
    store.insert("t".to_string(), GitObject::Tree(vec![entry("040000", "d", "hb")]));
    let (actions, err) = restore_tree(&store, "t", ".");
    assert_eq!(actions, vec![WorkAction::EnsureDir("./d".to_string())]);
    assert_eq!(err, Some(GitError::NotATree));
}

#[test]
fn restore_of_a_tree_that_contains_itself_stops() {
    let mut store = ObjectStore::new();
    store.insert("t".to_string(), GitObject::Tree(vec![entry("040000", "d", "t")]));
    let (actions, err) = restore_tree(&store, "t", ".");
    assert_eq!(err, Some(GitError::HistoryLoop));
    assert_eq!(actions[0], WorkAction::EnsureDir("./d".to_string()));
}

#[test]
fn index_from_tree_uses_paths_from_the_top() {
    let (store, index) = sample_store();
    let root = build_root_tree(&index).0;
    let mut rebuilt = Index::new();
    assert_eq!(build_index_from_tree(&store, &root, "", &mut rebuilt), Ok(()));
    assert_eq!(rebuilt.entries(), index.entries());
    let mut under = Index::new();
    assert_eq!(build_index_from_tree(&store, &root, "top", &mut under), Ok(()));
    assert!(under.get("top/dir/b.txt").is_some());
}

#[test]
fn index_from_tree_keeps_what_it_added_before_an_error() {
    let mut store = ObjectStore::new();
    store.insert(
        "t".to_string(),
        GitObject::Tree(vec![entry("100644", "a", "ha"), entry("040000", "d", "missing")]),
    );
    let mut index = Index::new();
    assert_eq!(build_index_from_tree(&store, "t", "", &mut index), Err(GitError::ObjectNotFound));
    assert_eq!(index.get("a"), Some(&"ha".to_string()));
}

#[test]
fn index_from_tree_of_a_blob_is_not_a_tree() {
    let mut store = ObjectStore::new();
    store.insert("b".to_string(), GitObject::Blob("x".to_string()));
    let mut index = Index::new();
    assert_eq!(build_index_from_tree(&store, "b", "", &mut index), Err(GitError::NotATree));
}
