use abak::file_list::FileList;
use abak::path::{Comparison, RelPath};

fn path(s: &str) -> RelPath {
    RelPath::new(s.as_bytes().to_vec())
}

#[test]
fn equal_paths_compare_equal() {
    assert_eq!(path("a/one.bin").compare(&path("a/one.bin")), Comparison::Equal);
    assert!(path("a/one.bin").equals(&path("a/one.bin")));
    assert!(!path("a/one.bin").equals(&path("a/two.bin")));
}

#[test]
fn a_path_sorts_before_its_extension() {
    assert_eq!(path("a").compare(&path("a/b")), Comparison::Less);
    assert_eq!(path("a/b").compare(&path("a")), Comparison::Greater);
    assert_eq!(path("").compare(&path("a")), Comparison::Less);
    assert_eq!(path("").compare(&path("")), Comparison::Equal);
}

#[test]
fn bytes_decide_within_a_component() {
    assert_eq!(path("a/one.bin").compare(&path("a/two.bin")), Comparison::Less);
    assert_eq!(path("b").compare(&path("a/z")), Comparison::Greater);
    assert_eq!(path("old.bin").compare(&path("a/two.bin")), Comparison::Greater);
}

#[test]
fn the_separator_sorts_before_every_other_byte() {
    // component by component: "a" < "a.b", "a" < "a!", "ab" < "ab.d"
    assert_eq!(path("a/b").compare(&path("a.b")), Comparison::Less);
    assert_eq!(path("a.b").compare(&path("a/b")), Comparison::Greater);
    assert_eq!(path("a/b").compare(&path("a!")), Comparison::Less);
    assert_eq!(path("ab/c").compare(&path("ab.d")), Comparison::Less);
    let zero = RelPath::new(vec![b'a', 0u8]);
    assert_eq!(path("a/b").compare(&zero), Comparison::Less);
}

#[test]
fn the_order_is_that_of_std_paths() {
    let names = ["a", "a/b", "a.b", "a!", "ab/c", "ab.d", "b", "a/b/c", "a/c", "old.bin", "a/two.bin"];
    for x in names.iter() {
        for y in names.iter() {
            let expected = match std::path::Path::new(x).cmp(std::path::Path::new(y)) {
                std::cmp::Ordering::Less => Comparison::Less,
                std::cmp::Ordering::Equal => Comparison::Equal,
                std::cmp::Ordering::Greater => Comparison::Greater,
            };
            assert_eq!(path(x).compare(&path(y)), expected);
        }
    }
}

#[test]
fn the_suffix_is_appended_to_the_bytes() {
    let p = path("a/two.bin");
    let t = p.with_suffix();
    assert_eq!(t.as_bytes().as_slice(), "a/two.bin.abakt".as_bytes());
    assert_eq!(t.with_suffix().as_bytes().as_slice(), "a/two.bin.abakt.abakt".as_bytes());
    assert_eq!(p.compare(&t), Comparison::Less);
    assert_eq!(p.len(), 9);
    assert_eq!(t.len(), 15);
}

#[test]
fn a_clone_is_equal() {
    let p = path("x/y");
    let q = p.clone();
    assert_eq!(p, q);
    assert_eq!(q.as_bytes().as_slice(), "x/y".as_bytes());
}

#[test]
fn a_list_takes_ascending_paths_only() {
    assert!(FileList::from_sorted(vec![]).is_some());
    assert!(FileList::from_sorted(vec![path("a")]).is_some());
    let list = FileList::from_sorted(vec![path("a"), path("a/b"), path("a.b"), path("b")]).unwrap();
    assert_eq!(list.len(), 4);
    assert_eq!(list.get(2), &path("a.b"));
    assert!(FileList::from_sorted(vec![path("b"), path("a")]).is_none());
    assert!(FileList::from_sorted(vec![path("a"), path("a")]).is_none());
    assert!(FileList::from_sorted(vec![path("a"), path("c"), path("b")]).is_none());
    assert!(FileList::from_sorted(vec![path("a.b"), path("a/b")]).is_none());
}
