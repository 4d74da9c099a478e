use rust_git::index::Index;
use rust_git::tree::{build_root_tree, InMemoryTree};

const H1: &str = "0c51127adf8cbbd14448ecc0ff2b4be07fbf48c37bc986b19bd420a5f7110ce0";
const H2: &str = "66fa62dc77799afc0fe29c9f84405019296b634caf1f9dfcf106ce5c8c6315d8";
const SUB: &str = "ff586a851c817eff5ee648a8ee6d58940f46c9fab7e35db2a76ae30129abadd1";
const ROOT: &str = "6b7656eb7513141a00f0e96a732769254431a5b5d8e2cfc78ca21e34f6e03518";

fn pairs(index: &Index) -> Vec<(String, String)> {
    index.entries().iter().map(|(p, h)| (p.clone(), h.clone())).collect()
}

#[test]
fn index_insert_get_remove() {
    let mut index = Index::new();
    assert_eq!(index.len(), 0);
    index.insert("b.txt".to_string(), "h2".to_string());
    index.insert("a.txt".to_string(), "h1".to_string());
    assert_eq!(index.get("a.txt"), Some(&"h1".to_string()));
    assert_eq!(index.get("c.txt"), None);
    index.insert("a.txt".to_string(), "h3".to_string());
    assert_eq!(index.get("a.txt"), Some(&"h3".to_string()));
    assert_eq!(index.len(), 2);
    index.remove("a.txt");
    assert_eq!(index.get("a.txt"), None);
    index.remove("missing");
    assert_eq!(index.len(), 1);
}

#[test]
fn index_entries_are_in_path_order() {
    let mut index = Index::new();
    for p in ["zeta", "Alpha", "beta", "dir/x", "dir", "dir0", "é"] {
        index.insert(p.to_string(), "h".to_string());
    }
    let paths: Vec<String> = index.entries().iter().map(|(p, _)| p.clone()).collect();
    let mut sorted = paths.clone();
    sorted.sort();
    assert_eq!(paths, sorted);
    assert_eq!(paths, vec!["Alpha", "beta", "dir", "dir/x", "dir0", "zeta", "é"]);
}

#[test]
fn stage_reports_change_only_when_blob_differs() {
    let mut index = Index::new();
    assert!(index.stage("f".to_string(), "h1".to_string()));
    assert!(!index.stage("f".to_string(), "h1".to_string()));
    assert!(index.stage("f".to_string(), "h2".to_string()));
    assert_eq!(index.get("f"), Some(&"h2".to_string()));
}

#[test]
fn from_pairs_later_pair_wins() {
    let index = Index::from_pairs(vec![
        ("b".to_string(), "1".to_string()),
        ("a".to_string(), "2".to_string()),
        ("b".to_string(), "3".to_string()),
    ]);
    assert_eq!(pairs(&index), vec![("a".to_string(), "2".to_string()), ("b".to_string(), "3".to_string())]);
}

#[test]
fn reloading_saved_entries_in_any_order_gives_the_same_index() {
    let mut index = Index::new();
    index.insert("x/y".to_string(), "1".to_string());
    index.insert("a".to_string(), "2".to_string());
    index.insert("m".to_string(), "3".to_string());
    let mut saved = pairs(&index);
    saved.reverse();
    let reloaded = Index::from_pairs(saved);
    assert_eq!(pairs(&reloaded), pairs(&index));
}

#[test]
fn tree_insert_makes_subdirectories() {
    let mut t = InMemoryTree::new();
    t.insert("a.txt", "h1");
    t.insert("dir/sub/b.txt", "h2");
    t.insert("dir/c.txt", "h3");
    assert_eq!(t.blobs, vec![("a.txt".to_string(), "h1".to_string())]);
    assert_eq!(t.trees.len(), 1);
    assert_eq!(t.trees[0].0, "dir");
    let dir = &t.trees[0].1;
    assert_eq!(dir.blobs, vec![("c.txt".to_string(), "h3".to_string())]);
    assert_eq!(dir.trees[0].0, "sub");
    assert_eq!(dir.trees[0].1.blobs, vec![("b.txt".to_string(), "h2".to_string())]);
}

#[test]
fn tree_insert_replaces_a_file() {
    let mut t = InMemoryTree::new();
    t.insert("a", "h1");
    t.insert("a", "h2");
    assert_eq!(t.blobs, vec![("a".to_string(), "h2".to_string())]);
}

#[test]
fn tree_write_gives_subtrees_first_then_root() {
    let mut t = InMemoryTree::new();
    t.insert("dir/b.txt", H2);
    t.insert("a.txt", H1);
    let (hash, objects) = t.write();
    assert_eq!(hash, ROOT);
    assert_eq!(objects.len(), 2);
    assert_eq!(objects[0].0, SUB);
    assert_eq!(
        objects[0].1,
        format!("{{\"Tree\":[{{\"mode\":\"100644\",\"name\":\"b.txt\",\"hash\":\"{}\"}}]}}", H2)
    );
    assert_eq!(objects[1].0, ROOT);
}

#[test]
fn empty_tree_writes_one_object() {
    let t = InMemoryTree::new();
    let (hash, objects) = t.write();
    assert_eq!(objects.len(), 1);
    assert_eq!(objects[0].1, "{\"Tree\":[]}");
    assert_eq!(hash, objects[0].0);
}

#[test]
fn build_root_tree_of_index() {
    let mut index = Index::new();
    index.insert("dir/b.txt".to_string(), H2.to_string());
    index.insert("a.txt".to_string(), H1.to_string());
    let (hash, objects) = build_root_tree(&index);
    assert_eq!(hash, ROOT);
    assert_eq!(objects.iter().map(|o| o.0.clone()).collect::<Vec<_>>(), vec![SUB.to_string(), ROOT.to_string()]);
}

#[test]
fn root_tree_depends_only_on_staged_files() {
    let mut a = InMemoryTree::new();
    a.insert("x/1", "h1");
    a.insert("y", "h2");
    a.insert("x/z/2", "h3");
    let mut b = InMemoryTree::new();
    b.insert("x/z/2", "h3");
    b.insert("y", "h2");
    b.insert("x/1", "h1");
    assert_eq!(a.write(), b.write());
}

#[test]
fn file_and_directory_of_the_same_name_both_stay() {
    let mut index = Index::new();
    index.insert("a".to_string(), H1.to_string());
    index.insert("a/b".to_string(), H2.to_string());
    let (_, objects) = build_root_tree(&index);
    let root = &objects[objects.len() - 1].1;
    assert!(root.contains("\"mode\":\"100644\",\"name\":\"a\""));
    assert!(root.contains("\"mode\":\"040000\",\"name\":\"a\""));
}

fn names(t: &InMemoryTree) -> (Vec<(String, String)>, Vec<String>) {
    (t.blobs.clone(), t.trees.iter().map(|(n, _)| n.clone()).collect())
}

#[test]
fn inserting_in_either_order_gives_the_same_tree() {
    let mut a = InMemoryTree::new();
    a.insert("d/f", "h1");
    a.insert("e", "h2");
    let mut b = InMemoryTree::new();
    b.insert("e", "h2");
    b.insert("d/f", "h1");
    assert_eq!(names(&a), names(&b));
    assert_eq!(names(&a.trees[0].1), names(&b.trees[0].1));
    assert_eq!(a.write(), b.write());
}

#[test]
fn inserting_a_path_again_keeps_the_later_blob() {
    let mut a = InMemoryTree::new();
    a.insert("d/f", "h1");
    a.insert("d/f", "h2");
    let mut b = InMemoryTree::new();
    b.insert("d/f", "h2");
    assert_eq!(names(&a), names(&b));
    assert_eq!(names(&a.trees[0].1), names(&b.trees[0].1));
    assert_eq!(a.trees[0].1.blobs, vec![("f".to_string(), "h2".to_string())]);
    assert_eq!(a.write(), b.write());
}
