use std::collections::HashMap;
use vik::error::VikError;
use vik::index::{load_index, save_index, tracked_paths, upsert_index_entry, IndexEntry};
use vik::object::encode_object;
use vik::hash::sha256_hex;
use vik::pathmap::PathMap;
use vik::tree::{parse_tree, tree_walk_items, write_tree_from_index, TreeNode, TreeWalk};

fn entry(path: &str, blob: &str) -> IndexEntry {
    IndexEntry { path: path.as_bytes().to_vec(), blob_id: blob.as_bytes().to_vec() }
}

fn pairs(es: &[IndexEntry]) -> Vec<(String, String)> {
    es.iter()
        .map(|e| {
            (String::from_utf8(e.path.clone()).unwrap(), String::from_utf8(e.blob_id.clone()).unwrap())
        })
        .collect()
}

#[test]
fn load_index_sorts_and_skips_blank_lines() {
    let es = load_index(b"b\tid2\n  \na\tid1\r\n").ok().unwrap();
    assert_eq!(pairs(&es), vec![("a".to_string(), "id1".to_string()), ("b".to_string(), "id2".to_string())]);
    assert_eq!(load_index(b"").ok().unwrap().len(), 0);
}

#[test]
fn load_index_keeps_equal_paths_in_order() {
    let es = load_index(b"z\t1\na\t2\nz\t3\n").ok().unwrap();
    assert_eq!(
        pairs(&es),
        vec![("a".into(), "2".into()), ("z".into(), "1".into()), ("z".into(), "3".into())]
    );
}

#[test]
fn load_index_errors() {
    assert!(matches!(load_index(b"no tab here\n"), Err(VikError::InvalidIndexEntry)));
    assert!(matches!(load_index(b"a\t\xff\n"), Err(VikError::NotUtf8)));
}

#[test]
fn save_index_sorts_by_path() {
    let es = vec![entry("dir/b", "2"), entry("a", "1")];
    assert_eq!(save_index(&es), b"a\t1\ndir/b\t2\n".to_vec());
    let back = load_index(&save_index(&es)).ok().unwrap();
    assert_eq!(pairs(&back), vec![("a".into(), "1".into()), ("dir/b".into(), "2".into())]);
}

#[test]
fn upsert_replaces_or_appends() {
    let mut es = vec![entry("a", "1"), entry("b", "2")];
    upsert_index_entry(&mut es, entry("a", "9"));
    assert_eq!(pairs(&es), vec![("a".into(), "9".into()), ("b".into(), "2".into())]);
    upsert_index_entry(&mut es, entry("c", "3"));
    assert_eq!(
        pairs(&es),
        vec![("a".into(), "9".into()), ("b".into(), "2".into()), ("c".into(), "3".into())]
    );
}

#[test]
fn tracked_paths_are_unique_and_sorted() {
    let ps = tracked_paths(b"z\t1\na\t2\nz\t3\n").ok().unwrap();
    assert_eq!(ps, vec![b"a".to_vec(), b"z".to_vec()]);
    assert!(matches!(tracked_paths(b"oops\n"), Err(VikError::InvalidIndexEntry)));
}

#[test]
fn path_map_insert_and_get() {
    let mut m = PathMap::new();
    m.insert(b"b".to_vec(), b"2".to_vec());
    m.insert(b"a".to_vec(), b"1".to_vec());
    m.insert(b"b".to_vec(), b"3".to_vec());
    assert_eq!(m.len(), 2);
    assert_eq!(m.key_at(0), &b"a".to_vec());
    assert_eq!(m.get(b"b"), Some(&b"3".to_vec()));
    assert_eq!(m.get(b"c"), None);
}

#[test]
fn tree_insert_refuses_empty_path() {
    let mut t = TreeNode::new();
    assert!(matches!(t.insert(&Vec::new(), b"x"), Err(VikError::EmptyPath)));
}

const CHILD: &str = "91d05a83140298efe537c2041ff9a37b6e08b51ea958b635c50a355ebd8266f8";
const ROOT: &str = "8c7801fa9de6cf198f2f49bf3ef80c4a1bfcdaaddb5c310cd77d3371394fe9c5";

#[test]
fn write_tree_from_index_builds_nested_trees() {
    let es = vec![entry("a.txt", "id1"), entry("dir/b.txt", "id2")];
    let (oid, objects) = write_tree_from_index(&es);
    assert_eq!(oid, ROOT.as_bytes().to_vec());
    assert_eq!(objects.len(), 2);
    assert_eq!(objects[0].oid, CHILD.as_bytes().to_vec());
    assert_eq!(objects[0].bytes, encode_object("tree", b"100644 blob id2 b.txt\n"));
    let root_text = format!("100644 blob id1 a.txt\n040000 tree {} dir\n", CHILD);
    assert_eq!(objects[1].bytes, encode_object("tree", root_text.as_bytes()));
    assert_eq!(sha256_hex(&objects[1].bytes), oid);
}

#[test]
fn parse_tree_reads_four_fields() {
    let ls = parse_tree(b"100644 blob id1 a name\n040000 tree t dir\n").ok().unwrap();
    assert_eq!(ls.len(), 2);
    assert_eq!(ls[0].kind, b"blob".to_vec());
    assert_eq!(ls[0].oid, b"id1".to_vec());
    assert_eq!(ls[0].name, b"a name".to_vec());
    assert_eq!(ls[1].kind, b"tree".to_vec());
    assert!(matches!(parse_tree(b"100644 blob id1\n"), Err(VikError::InvalidTreeEntry)));
    assert!(matches!(parse_tree(b"\n"), Err(VikError::InvalidTreeEntry)));
}

#[test]
fn tree_walk_items_classifies_lines() {
    let obj = encode_object("tree", b"100644 blob b1 f\n040000 tree t1 d\n160000 commit c1 s\n");
    let items = tree_walk_items(b"top", &obj).ok().unwrap();
    assert_eq!(items.len(), 2);
    assert!(!items[0].is_tree);
    assert_eq!(items[0].path, b"top/f".to_vec());
    assert!(items[1].is_tree);
    assert_eq!(items[1].oid, b"t1".to_vec());
    let blob = encode_object("blob", b"x");
    assert!(matches!(tree_walk_items(b"", &blob), Err(VikError::NotATree)));
    let bad = encode_object("tree", b"\xff\n");
    assert!(matches!(tree_walk_items(b"", &bad), Err(VikError::NotUtf8)));
}

#[test]
fn tree_walk_recovers_the_index() {
    let es = vec![entry("a.txt", "id1"), entry("dir/b.txt", "id2"), entry("dir/sub/c", "id3")];
    let (root, objects) = write_tree_from_index(&es);
    let store: HashMap<Vec<u8>, Vec<u8>> = objects.into_iter().map(|o| (o.oid, o.bytes)).collect();
    let mut walk = TreeWalk::new();
    walk.enter(b"", &store[&root]).ok().unwrap();
    while let Some((oid, path)) = walk.next() {
        walk.enter(&path, &store[&oid]).ok().unwrap();
    }
    let files = walk.files();
    assert_eq!(files.len(), 3);
    assert_eq!(files.get(b"a.txt"), Some(&b"id1".to_vec()));
    assert_eq!(files.get(b"dir/b.txt"), Some(&b"id2".to_vec()));
    assert_eq!(files.get(b"dir/sub/c"), Some(&b"id3".to_vec()));
}

fn walk_store(root: &[u8], store: &HashMap<Vec<u8>, Vec<u8>>) -> PathMap {
    let mut walk = TreeWalk::new();
    walk.enter(b"", &store[root]).ok().unwrap();
    while let Some((oid, path)) = walk.next() {
        walk.enter(&path, &store[&oid]).ok().unwrap();
    }
    walk.into_files()
}

#[test]
fn tree_walk_keeps_unusual_names() {
    let es = vec![
        entry("a", "id1"),
        entry("a/b", "id2"),
        entry("a b", "id3"),
        entry("x//y", "id4"),
        entry("z/", "id5"),
    ];
    let (root, objects) = write_tree_from_index(&es);
    let store: HashMap<Vec<u8>, Vec<u8>> = objects.into_iter().map(|o| (o.oid, o.bytes)).collect();
    let files = walk_store(&root, &store);
    assert_eq!(files.len(), 5);
    for e in &es {
        assert_eq!(files.get(&e.path), Some(&e.blob_id));
    }
    // right after the commit nothing is staged
    let staged = vik::status::staged_paths(&es, &files);
    assert!(staged.is_empty());
}

#[test]
fn tree_walk_loses_a_leading_slash() {
    let es = vec![entry("/b", "id1")];
    let (root, objects) = write_tree_from_index(&es);
    let store: HashMap<Vec<u8>, Vec<u8>> = objects.into_iter().map(|o| (o.oid, o.bytes)).collect();
    let files = walk_store(&root, &store);
    assert_eq!(files.len(), 1);
    assert_eq!(files.get(b"b"), Some(&b"id1".to_vec()));
}

#[test]
fn tree_id_depends_only_on_the_files() {
    let es1 = vec![entry("dir/b", "id2"), entry("a", "id1")];
    let es2 = vec![entry("a", "old"), entry("dir/b", "id2"), entry("a", "id1")];
    let (root1, objects1) = write_tree_from_index(&es1);
    let (root2, objects2) = write_tree_from_index(&es2);
    assert_eq!(root1, root2);
    assert_eq!(objects1.len(), objects2.len());
    for (o1, o2) in objects1.iter().zip(objects2.iter()) {
        assert_eq!(o1.oid, o2.oid);
        assert_eq!(o1.bytes, o2.bytes);
    }
    let (root3, _) = write_tree_from_index(&vec![entry("a", "id1"), entry("dir/b", "id3")]);
    assert_ne!(root1, root3);
}

#[test]
fn tree_insert_keeps_directories() {
    let mut t = TreeNode::new();
    let p1 = vec![b"d".to_vec(), b"e".to_vec(), b"f".to_vec()];
    assert!(t.insert(&p1, b"id1").is_ok());
    let p2 = vec![b"d".to_vec(), b"g".to_vec()];
    assert!(t.insert(&p2, b"id2").is_ok());
    assert_eq!(t.dirs.len(), 1);
    assert_eq!(t.dirs[0].name, b"d".to_vec());
    assert_eq!(t.dirs[0].node.dirs.len(), 1);
    assert_eq!(t.dirs[0].node.dirs[0].name, b"e".to_vec());
    assert_eq!(t.dirs[0].node.blobs.get(b"g"), Some(&b"id2".to_vec()));
}

#[test]
fn permuted_index_gives_same_tree() {
    let es1 = vec![entry("a", "1"), entry("d/b", "2"), entry("d/c/e", "3")];
    let es2 = vec![entry("d/c/e", "3"), entry("a", "1"), entry("d/b", "2")];
    assert_eq!(write_tree_from_index(&es1).0, write_tree_from_index(&es2).0);
}
