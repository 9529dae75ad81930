use vik::cli::{cat_file_output, check_add_files, check_commit_index, CatMode};
use vik::commit::{commit_body, commit_tree_id, log_entry};
use vik::error::VikError;
use vik::index::IndexEntry;
use vik::object::{encode_object, parse_object};
use vik::pathmap::PathMap;
use vik::refs::{
    branch_listing, branch_ref, check_branch_name, find_repo_root, head_content, read_head_target,
    read_ref, relative_path, write_ref,
};
use vik::status::{blob_content, index_from_files, index_files, is_modified, staged_paths};
use vik::object::hash_object;

fn entry(path: &str, blob: &str) -> IndexEntry {
    IndexEntry { path: path.as_bytes().to_vec(), blob_id: blob.as_bytes().to_vec() }
}

#[test]
fn commit_body_layout() {
    let body = commit_body(b"t1", Some(b"  p1 \n"), b"tester", 42, b"initial");
    assert_eq!(
        body,
        b"tree t1\nparent p1\nauthor tester\ncommitter tester\ntimestamp 42\n\ninitial\n".to_vec()
    );
    let first = commit_body(b"t1", Some(b"   "), b"me", 0, b"m");
    assert_eq!(first, b"tree t1\nauthor me\ncommitter me\ntimestamp 0\n\nm\n".to_vec());
    let none = commit_body(b"t1", None, b"me", 0, b"m");
    assert_eq!(none, first);
}

#[test]
fn commit_tree_id_reads_first_tree_line() {
    let obj = encode_object("commit", &commit_body(b"abc", None, b"me", 1, b"tree x"));
    assert_eq!(commit_tree_id(&obj).ok().unwrap(), b"abc".to_vec());
    let no_tree = encode_object("commit", b"author me\n");
    assert!(matches!(commit_tree_id(&no_tree), Err(VikError::CommitMissingTree)));
    let blob = encode_object("blob", b"tree abc\n");
    assert!(matches!(commit_tree_id(&blob), Err(VikError::NotACommit)));
}

#[test]
fn log_entry_shows_author_date_message_and_parent() {
    let obj = encode_object("commit", &commit_body(b"t", Some(b"p0"), b"tester", 7, b"hello\n\nworld"));
    let e = log_entry(b" c1\n", &obj).ok().unwrap();
    let shown: Vec<String> = e.lines.iter().map(|l| String::from_utf8(l.clone()).unwrap()).collect();
    assert_eq!(
        shown,
        vec!["commit c1", "Author: tester", "Date: 7", "    hello", "    world", ""]
    );
    assert_eq!(e.parent, Some(b"p0".to_vec()));
    let root = encode_object("commit", &commit_body(b"t", None, b"a", 1, b"m"));
    assert_eq!(log_entry(b"c0", &root).ok().unwrap().parent, None);
    assert!(matches!(log_entry(b"x", &encode_object("tree", b"")), Err(VikError::NotACommit)));
}

#[test]
fn head_and_refs() {
    assert_eq!(read_head_target(b"ref: refs/heads/main\n").ok().unwrap(), b"refs/heads/main".to_vec());
    assert!(matches!(read_head_target(b"abc\n"), Err(VikError::HeadNotSymbolic)));
    assert!(matches!(read_head_target(b"\xff"), Err(VikError::NotUtf8)));
    assert_eq!(read_ref(None).ok().unwrap(), None);
    assert_eq!(read_ref(Some(b" abc \n")).ok().unwrap(), Some(b"abc".to_vec()));
    assert_eq!(read_ref(Some(b"")).ok().unwrap(), Some(Vec::new()));
    assert_eq!(write_ref(b" abc\n"), b"abc\n".to_vec());
    assert_eq!(branch_ref(b"main"), b"refs/heads/main".to_vec());
    assert_eq!(head_content(b"refs/heads/main"), b"ref: refs/heads/main\n".to_vec());
    let round = read_head_target(&head_content(&branch_ref(b"feature"))).ok().unwrap();
    assert_eq!(round, b"refs/heads/feature".to_vec());
}

#[test]
fn branch_names_and_listing() {
    assert!(check_branch_name(b"feature").is_ok());
    assert!(matches!(check_branch_name(b"a/b"), Err(VikError::InvalidBranchName)));
    assert!(matches!(check_branch_name(b"a b"), Err(VikError::InvalidBranchName)));
    let names = vec![b"main".to_vec(), b"feature".to_vec(), b"dev".to_vec()];
    let lines = branch_listing(&names, b"refs/heads/main");
    assert_eq!(lines, vec![b"  dev".to_vec(), b"  feature".to_vec(), b"* main".to_vec()]);
    let detached = branch_listing(&names, b"dev");
    assert_eq!(detached[0], b"* dev".to_vec());
}

#[test]
fn repo_root_search() {
    assert_eq!(find_repo_root(&[false, true, true]).ok(), Some(1));
    assert!(matches!(find_repo_root(&[false, false]), Err(VikError::NotInRepository)));
    assert!(matches!(find_repo_root(&[]), Err(VikError::NotInRepository)));
}

#[test]
fn relative_paths() {
    assert_eq!(relative_path(b"/r/a/b", b"/r").ok().unwrap(), b"a/b".to_vec());
    assert_eq!(relative_path(b"/r", b"/r").ok().unwrap(), Vec::<u8>::new());
    assert_eq!(relative_path(b"/x/y", b"/").ok().unwrap(), b"x/y".to_vec());
    assert_eq!(relative_path(b"/r/a\\b", b"/r").ok().unwrap(), b"a/b".to_vec());
    assert!(matches!(relative_path(b"/rx/a", b"/r"), Err(VikError::PathOutsideRepository)));
    assert!(matches!(relative_path(b"/x", b"/r"), Err(VikError::PathOutsideRepository)));
}

#[test]
fn status_pieces() {
    let index = vec![entry("a", "1"), entry("b", "2"), entry("c", "3"), entry("a", "4")];
    let files = index_files(&index);
    assert_eq!(files.get(b"a"), Some(&b"4".to_vec()));
    let mut head = PathMap::new();
    head.insert(b"a".to_vec(), b"4".to_vec());
    head.insert(b"b".to_vec(), b"9".to_vec());
    assert_eq!(staged_paths(&index, &head), vec![b"b".to_vec(), b"c".to_vec()]);
    let back = index_from_files(&files);
    assert_eq!(back.len(), 3);
    assert_eq!(back[0].blob_id, b"4".to_vec());
    let oid = hash_object("blob", b"data").oid;
    assert!(!is_modified(&oid, b"data"));
    assert!(is_modified(&oid, b"other"));
}

#[test]
fn blob_content_checks_kind() {
    assert_eq!(blob_content(&encode_object("blob", b"x")).ok().unwrap(), b"x".to_vec());
    assert!(matches!(blob_content(&encode_object("tree", b"")), Err(VikError::NotABlob)));
    assert!(matches!(blob_content(b"junk"), Err(VikError::MissingHeaderSeparator)));
}

#[test]
fn cat_file_modes() {
    let p = parse_object(&encode_object("blob", b"hello vik\n")).ok().unwrap();
    let t = cat_file_output(true, false, false, &p).ok().unwrap();
    assert_eq!(t.mode, CatMode::Line);
    assert_eq!(t.bytes, b"blob".to_vec());
    let s = cat_file_output(false, true, false, &p).ok().unwrap();
    assert_eq!(s.bytes, b"10".to_vec());
    let c = cat_file_output(false, false, true, &p).ok().unwrap();
    assert_eq!(c.mode, CatMode::Text);
    assert_eq!(c.bytes, b"hello vik\n".to_vec());
    let odd = parse_object(b"note 1\0x").ok().unwrap();
    assert_eq!(cat_file_output(false, false, true, &odd).ok().unwrap().mode, CatMode::Raw);
    assert!(matches!(cat_file_output(false, false, false, &p), Err(VikError::NoCatFileMode)));
}

#[test]
fn add_and_commit_preconditions() {
    assert!(matches!(check_add_files(&vec![]), Err(VikError::NoFilesProvided)));
    assert!(check_add_files(&vec![b"a".to_vec()]).is_ok());
    assert!(matches!(check_commit_index(&vec![]), Err(VikError::NothingToCommit)));
    assert!(check_commit_index(&vec![entry("a", "1")]).is_ok());
}

#[test]
fn hash_object_id_is_lowercase_hex() {
    let oid = hash_object("blob", b"hello vik\n").oid;
    assert_eq!(oid.len(), 64);
    assert!(oid.iter().all(|b| b.is_ascii_digit() || (b'a'..=b'f').contains(b)));
}

#[test]
fn ref_reads_back_what_was_written() {
    let written = write_ref(" \u{a0}abc\t".as_bytes());
    assert_eq!(read_ref(Some(&written)).ok().unwrap(), Some(b"abc".to_vec()));
}
