use abak::aosync::Aosync;
use abak::error::SyncError;
use abak::file_list::FileList;
use abak::path::RelPath;
use abak::sync_item::SyncItem;
use abak::tree::FileTree;

fn path(s: &str) -> RelPath {
    RelPath::new(s.as_bytes().to_vec())
}

fn tree(files: &[(&str, &[u8])]) -> FileTree {
    let mut t = FileTree::new();
    for (p, c) in files.iter() {
        t.put(path(p), c.to_vec());
    }
    t
}

fn list(names: &[&str]) -> FileList {
    FileList::from_sorted(names.iter().map(|n| path(n)).collect()).unwrap()
}

fn item(src: &str, dst: &str, offset: u64, len: u64) -> SyncItem {
    SyncItem { src: path(src), dst: path(dst), offset, len }
}

fn pattern(len: usize, seed: u8) -> Vec<u8> {
    (0..len).map(|i| (i as u8).wrapping_mul(31).wrapping_add(seed)).collect()
}

#[test]
fn nothing_to_resolve_without_destination_files() {
    let run = Aosync::new(tree(&[("a", b"1")]), tree(&[]));
    assert_eq!(run.compute_append_items(&list(&["a"]), &list(&[])), Ok(vec![]));
    // the source list is not even looked at
    assert_eq!(run.compute_append_items(&list(&["missing"]), &list(&[])), Ok(vec![]));
    assert_eq!(run.compute_append_items(&list(&[]), &list(&[])), Ok(vec![]));
}

#[test]
fn a_grown_and_moved_file_is_found() {
    let x = b"0123456789";
    let xy = b"0123456789abcdefghij";
    let run = Aosync::new(tree(&[("a/one.bin", x), ("a/two.bin", xy)]), tree(&[("old.bin", x)]));
    // both sources start with the destination file: only pruning by size
    // could tell them apart, and here nothing was pruned
    assert_eq!(
        run.compute_append_items(&list(&["a/one.bin", "a/two.bin"]), &list(&["old.bin"])),
        Err(SyncError::AmbiguousMatch(path("old.bin")))
    );
    assert_eq!(
        run.compute_append_items(&list(&["a/two.bin"]), &list(&["old.bin"])),
        Ok(vec![item("a/two.bin", "old.bin", 10, 10)])
    );
    assert_eq!(
        run.compute_append_items(&list(&["a/one.bin"]), &list(&["old.bin"])),
        Ok(vec![item("a/one.bin", "old.bin", 10, 0)])
    );
}

#[test]
fn items_come_in_source_order() {
    let src = tree(&[("a", b"zz-1"), ("b", b"yyyy-22"), ("c", b"x-333"), ("d", b"w-4444")]);
    let dst = tree(&[("p", b"x"), ("q", b"yyyy"), ("r", b"w-4"), ("s", b"zz")]);
    let run = Aosync::new(src, dst);
    assert_eq!(
        run.compute_append_items(&list(&["a", "b", "c", "d"]), &list(&["p", "q", "r", "s"])),
        Ok(vec![item("a", "s", 2, 2), item("b", "q", 4, 3), item("c", "p", 1, 4), item("d", "r", 3, 3)])
    );
}

#[test]
fn a_file_grown_in_place_is_an_append_item() {
    let run = Aosync::new(tree(&[("log", b"line 1\nline 2\n")]), tree(&[("log", b"line 1\n")]));
    assert_eq!(
        run.compute_append_items(&list(&["log"]), &list(&["log"])),
        Ok(vec![item("log", "log", 7, 7)])
    );
}

#[test]
fn two_identical_sources_are_ambiguous() {
    let src = tree(&[("copy/one", b"same content, longer"), ("copy/two", b"same content, longer")]);
    let dst = tree(&[("old", b"same content")]);
    let run = Aosync::new(src, dst);
    assert_eq!(
        run.compute_append_items(&list(&["copy/one", "copy/two"]), &list(&["old"])),
        Err(SyncError::AmbiguousMatch(path("old")))
    );
    let mut run = run;
    assert_eq!(run.aosync(), Err(SyncError::AmbiguousMatch(path("old"))));
    assert_eq!(run.dst(), &tree(&[("old", b"same content")]));
}

#[test]
fn an_empty_destination_file_matches_every_source() {
    let run = Aosync::new(tree(&[("a", b"1"), ("b", b"2")]), tree(&[("e", b"")]));
    assert_eq!(
        run.compute_append_items(&list(&["a", "b"]), &list(&["e"])),
        Err(SyncError::AmbiguousMatch(path("e")))
    );
    assert_eq!(run.compute_append_items(&list(&["b"]), &list(&["e"])), Ok(vec![item("b", "e", 0, 1)]));
    assert_eq!(
        run.compute_append_items(&list(&[]), &list(&["e"])),
        Err(SyncError::NoSourceMatch(path("e")))
    );
}

#[test]
fn a_destination_file_without_source_is_an_error() {
    let run = Aosync::new(tree(&[("a", b"abc"), ("b", b"abd")]), tree(&[("x", b"abe")]));
    assert_eq!(
        run.compute_append_items(&list(&["a", "b"]), &list(&["x"])),
        Err(SyncError::NoSourceMatch(path("x")))
    );
    // a source that is shorter than the destination file does not match
    let run = Aosync::new(tree(&[("a", b"ab")]), tree(&[("x", b"abc")]));
    assert_eq!(
        run.compute_append_items(&list(&["a"]), &list(&["x"])),
        Err(SyncError::NoSourceMatch(path("x")))
    );
}

#[test]
fn a_source_claimed_twice_is_an_error() {
    let src = tree(&[("a", b"q"), ("s", b"0123456789"), ("t", b"abcdef")]);
    let dst = tree(&[("x", b"0123"), ("y", b"01234567"), ("z", b"abc")]);
    let run = Aosync::new(src, dst);
    assert_eq!(
        run.compute_append_items(&list(&["a", "s", "t"]), &list(&["x", "y", "z"])),
        Err(SyncError::DuplicateSource(path("s")))
    );
    // of two sources claimed twice the first in the list is reported
    let src = tree(&[("s", b"0123456789"), ("t", b"abcdef")]);
    let dst = tree(&[("w", b"ab"), ("x", b"0123"), ("y", b"01234567"), ("z", b"abc")]);
    let run = Aosync::new(src, dst);
    assert_eq!(
        run.compute_append_items(&list(&["s", "t"]), &list(&["w", "x", "y", "z"])),
        Err(SyncError::DuplicateSource(path("s")))
    );
}

#[test]
fn the_longest_sample_is_processed_first() {
    // "n" (4 bytes) has no source, "m" (2 bytes) is ambiguous: the longer
    // sample is looked at first
    let src = tree(&[("a", b"xy1"), ("b", b"xy2")]);
    let dst = tree(&[("m", b"xy"), ("n", b"none")]);
    let run = Aosync::new(src, dst);
    assert_eq!(
        run.compute_append_items(&list(&["a", "b"]), &list(&["m", "n"])),
        Err(SyncError::NoSourceMatch(path("n")))
    );
    let src = tree(&[("a", b"xyz1"), ("b", b"xyz2")]);
    let dst = tree(&[("m", b"xyz"), ("n", b"no")]);
    let run = Aosync::new(src, dst);
    assert_eq!(
        run.compute_append_items(&list(&["a", "b"]), &list(&["m", "n"])),
        Err(SyncError::AmbiguousMatch(path("m")))
    );
    // of two samples of equal length the one listed later comes first
    let src = tree(&[("a", b"xy1"), ("b", b"xy2")]);
    let dst = tree(&[("m", b"xy"), ("n", b"no")]);
    let run = Aosync::new(src, dst);
    assert_eq!(
        run.compute_append_items(&list(&["a", "b"]), &list(&["m", "n"])),
        Err(SyncError::NoSourceMatch(path("n")))
    );
    let dst = tree(&[("m", b"no"), ("n", b"xy")]);
    let run = Aosync::new(tree(&[("a", b"xy1"), ("b", b"xy2")]), dst);
    assert_eq!(
        run.compute_append_items(&list(&["a", "b"]), &list(&["m", "n"])),
        Err(SyncError::AmbiguousMatch(path("n")))
    );
    // an unexplained file is reported before a source claimed twice
    let src = tree(&[("s", b"0123456789")]);
    let dst = tree(&[("x", b"0123"), ("y", b"01234567"), ("z", b"?")]);
    let run = Aosync::new(src, dst);
    assert_eq!(
        run.compute_append_items(&list(&["s"]), &list(&["x", "y", "z"])),
        Err(SyncError::NoSourceMatch(path("z")))
    );
}

#[test]
fn listed_files_have_to_exist() {
    let run = Aosync::new(tree(&[("a", b"abc")]), tree(&[("x", b"ab")]));
    assert_eq!(
        run.compute_append_items(&list(&["a"]), &list(&["w", "x", "y"])),
        Err(SyncError::MissingFile(path("w")))
    );
    assert_eq!(
        run.compute_append_items(&list(&["a", "b", "c"]), &list(&["x"])),
        Err(SyncError::MissingFile(path("b")))
    );
    // the destination list is looked up first
    assert_eq!(
        run.compute_append_items(&list(&["0", "a"]), &list(&["x", "y"])),
        Err(SyncError::MissingFile(path("y")))
    );
}

#[test]
fn samples_that_agree_do_not_decide() {
    // the files agree in their first 4096 bytes and differ after them
    let mut long_a = pattern(5000, 1);
    let mut long_b = pattern(5000, 1);
    long_a.extend_from_slice(b"tail a");
    long_b[4500] ^= 0xff;
    let old = pattern(5000, 1);
    let src = {
        let mut t = FileTree::new();
        t.put(path("a"), long_a.clone());
        t.put(path("b"), long_b.clone());
        t
    };
    let dst = {
        let mut t = FileTree::new();
        t.put(path("old"), old.clone());
        t
    };
    let run = Aosync::new(src, dst);
    assert_eq!(
        run.compute_append_items(&list(&["a", "b"]), &list(&["old"])),
        Ok(vec![item("a", "old", 5000, 6)])
    );
    // a source that is shorter than the destination file, with equal samples
    let src = {
        let mut t = FileTree::new();
        t.put(path("short"), pattern(4500, 1));
        t
    };
    let dst = {
        let mut t = FileTree::new();
        t.put(path("old"), old);
        t
    };
    let run = Aosync::new(src, dst);
    assert_eq!(
        run.compute_append_items(&list(&["short"]), &list(&["old"])),
        Err(SyncError::NoSourceMatch(path("old")))
    );
}
