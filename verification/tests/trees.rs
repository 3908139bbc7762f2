use abak::apply::build_tmp_path;
use abak::path::RelPath;
use abak::tree::FileTree;

fn path(s: &str) -> RelPath {
    RelPath::new(s.as_bytes().to_vec())
}

fn tree(files: &[(&str, &[u8])]) -> FileTree {
    let mut t = FileTree::new();
    for (p, c) in files.iter() {
        t.put(path(p), c.to_vec());
    }
    t
}

fn paths_of(t: &FileTree) -> Vec<String> {
    let mut v = Vec::new();
    for i in 0..t.len() {
        v.push(String::from_utf8(t.path_at(i).as_bytes().clone()).unwrap());
    }
    v
}

#[test]
fn an_empty_tree_holds_nothing() {
    let t = FileTree::new();
    assert_eq!(t.len(), 0);
    assert!(!t.contains(&path("a")));
    assert!(t.get(&path("a")).is_none());
    assert_eq!(t.search(&path("a")), (false, 0));
    assert_eq!(t.list().len(), 0);
}

#[test]
fn files_are_kept_in_path_order() {
    let t = tree(&[("b", b"2"), ("a.b", b"3"), ("a/b", b"1"), ("c", b"4"), ("a", b"0")]);
    assert_eq!(paths_of(&t), vec!["a", "a/b", "a.b", "b", "c"]);
    assert_eq!(t.content_at(1).as_slice(), b"1");
    assert_eq!(t.get(&path("a.b")).unwrap().as_slice(), b"3");
    assert_eq!(t.search(&path("b")), (true, 3));
    assert_eq!(t.search(&path("bb")), (false, 4));
    assert_eq!(t.search(&path("0")), (false, 0));
    assert_eq!(t.search(&path("d")), (false, 5));
    let list = t.list();
    assert_eq!(list.len(), 5);
    assert_eq!(list.get(2), &path("a.b"));
}

#[test]
fn put_replaces_and_create_new_does_not() {
    let mut t = tree(&[("a", b"old")]);
    t.put(path("a"), b"new".to_vec());
    assert_eq!(t.len(), 1);
    assert_eq!(t.get(&path("a")).unwrap().as_slice(), b"new");
    assert!(!t.create_new(path("a"), b"other".to_vec()));
    assert_eq!(t.get(&path("a")).unwrap().as_slice(), b"new");
    assert!(t.create_new(path("b"), b"other".to_vec()));
    assert_eq!(t.get(&path("b")).unwrap().as_slice(), b"other");
    assert_eq!(t.len(), 2);
}

#[test]
fn remove_takes_the_file_out() {
    let mut t = tree(&[("a", b"1"), ("b", b"2"), ("c", b"3")]);
    assert_eq!(t.remove(&path("b")), Some(b"2".to_vec()));
    assert_eq!(paths_of(&t), vec!["a", "c"]);
    assert_eq!(t.remove(&path("b")), None);
    assert_eq!(t.len(), 2);
}

#[test]
fn rename_moves_and_replaces() {
    let mut t = tree(&[("a", b"1"), ("b", b"2"), ("c", b"3")]);
    assert!(t.rename(&path("a"), path("z")));
    assert_eq!(paths_of(&t), vec!["b", "c", "z"]);
    assert_eq!(t.get(&path("z")).unwrap().as_slice(), b"1");
    assert!(t.rename(&path("b"), path("c")));
    assert_eq!(paths_of(&t), vec!["c", "z"]);
    assert_eq!(t.get(&path("c")).unwrap().as_slice(), b"2");
    assert!(!t.rename(&path("nowhere"), path("c")));
    assert_eq!(t.get(&path("c")).unwrap().as_slice(), b"2");
    assert!(t.rename(&path("z"), path("z")));
    assert_eq!(t.get(&path("z")).unwrap().as_slice(), b"1");
    assert_eq!(t.len(), 2);
}

#[test]
fn append_copies_from_the_offset_on() {
    let mut t = tree(&[("a", b"0123")]);
    assert!(t.append(&path("a"), &b"0123456789".to_vec(), 4));
    assert_eq!(t.get(&path("a")).unwrap().as_slice(), b"0123456789");
    assert!(t.append(&path("a"), &b"xyz".to_vec(), 0));
    assert_eq!(t.get(&path("a")).unwrap().as_slice(), b"0123456789xyz");
    assert!(t.append(&path("a"), &b"xyz".to_vec(), 3));
    assert!(t.append(&path("a"), &b"xyz".to_vec(), 4));
    assert!(t.append(&path("a"), &b"xyz".to_vec(), usize::MAX));
    assert_eq!(t.get(&path("a")).unwrap().as_slice(), b"0123456789xyz");
    assert!(!t.append(&path("b"), &b"xyz".to_vec(), 0));
    assert_eq!(t.len(), 1);
}

#[test]
fn the_temporary_name_is_the_first_free_one() {
    let t = tree(&[("x", b"1")]);
    assert_eq!(build_tmp_path(&t, &path("x")), path("x.abakt"));
    assert_eq!(build_tmp_path(&t, &path("y")), path("y.abakt"));
    let t = tree(&[("x", b"1"), ("x.abakt", b"2")]);
    assert_eq!(build_tmp_path(&t, &path("x")), path("x.abakt.abakt"));
    let t = tree(&[("x.abakt", b"2"), ("x.abakt.abakt", b"3"), ("x.abakt.abakt.abakt.abakt", b"5")]);
    assert_eq!(build_tmp_path(&t, &path("x")), path("x.abakt.abakt.abakt"));
    assert_eq!(build_tmp_path(&t, &path("x.abakt")), path("x.abakt.abakt.abakt"));
    let t = tree(&[("d/x.abakt", b"2"), ("d/x.abakt/y", b"3"), ("d/x.abakt0", b"3")]);
    assert_eq!(build_tmp_path(&t, &path("d/x")), path("d/x.abakt.abakt"));
}
