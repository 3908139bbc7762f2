use abak::aosync::Aosync;
use abak::error::SyncError;
use abak::path::RelPath;
use abak::random::{RandomSource, CHECK_ALWAYS};
use abak::tree::FileTree;

fn path(s: &str) -> RelPath {
    RelPath::new(s.as_bytes().to_vec())
}

fn tree(files: &[(&str, &[u8])]) -> FileTree {
    let mut t = FileTree::new();
    for (p, c) in files.iter() {
        t.put(path(p), c.to_vec());
    }
    t
}

fn names(list: &abak::file_list::FileList) -> Vec<String> {
    (0..list.len()).map(|i| String::from_utf8(list.get(i).as_bytes().clone()).unwrap()).collect()
}

#[test]
fn defaults_of_a_new_run() {
    let mut run = Aosync::new(tree(&[("a", b"1")]), tree(&[]));
    assert_eq!(run.src().len(), 1);
    assert_eq!(run.dst().len(), 0);
    let (src, dst) = run.into_trees();
    assert_eq!(src, tree(&[("a", b"1")]));
    assert_eq!(dst, FileTree::new());
}

#[test]
fn pruning_separates_by_path_and_size() {
    let src = tree(&[
        ("a", b"same"),
        ("b", b"grown!"),
        ("c", b"only in source"),
        ("d/e", b"x"),
        ("f", b"tail"),
    ]);
    let dst = tree(&[
        ("a", b"same"),
        ("b", b"grown"),
        ("d/e", b"y"),
        ("d/z", b"only in destination"),
        ("e", b"also only there"),
    ]);
    let mut run = Aosync::new(src, dst);
    run.set_check(0);
    let pruned = run.quick_pruning().unwrap();
    assert_eq!(pruned.same_count, 2);
    assert_eq!(names(&pruned.unmatched_src), vec!["b", "c", "f"]);
    assert_eq!(names(&pruned.unmatched_dst), vec!["b", "d/z", "e"]);
}

#[test]
fn pruning_flushes_the_longer_tail() {
    let mut run = Aosync::new(tree(&[("a", b"1"), ("b", b"2"), ("c", b"3")]), tree(&[("a", b"1")]));
    run.set_check(CHECK_ALWAYS);
    let pruned = run.quick_pruning().unwrap();
    assert_eq!(pruned.same_count, 1);
    assert_eq!(names(&pruned.unmatched_src), vec!["b", "c"]);
    assert_eq!(pruned.unmatched_dst.len(), 0);

    let mut run = Aosync::new(tree(&[("m", b"1")]), tree(&[("a", b"0"), ("m", b"1"), ("x", b"2"), ("y", b"3")]));
    run.set_check(CHECK_ALWAYS);
    let pruned = run.quick_pruning().unwrap();
    assert_eq!(pruned.same_count, 1);
    assert_eq!(pruned.unmatched_src.len(), 0);
    assert_eq!(names(&pruned.unmatched_dst), vec!["a", "x", "y"]);

    let mut run = Aosync::new(tree(&[]), tree(&[]));
    let pruned = run.quick_pruning().unwrap();
    assert_eq!(pruned.same_count, 0);
    assert_eq!(pruned.unmatched_src.len(), 0);
    assert_eq!(pruned.unmatched_dst.len(), 0);
}

#[test]
fn full_verification_detects_corruption() {
    // equal length, one byte differs
    let src = tree(&[("a", b"fine"), ("k", b"0123456789"), ("z", b"fine too")]);
    let dst = tree(&[("a", b"fine"), ("k", b"0123456780"), ("z", b"fine too")]);
    let mut run = Aosync::new(src, dst);
    run.set_check(CHECK_ALWAYS);
    assert_eq!(run.quick_pruning(), Err(SyncError::Corrupted(path("k"))));
    assert_eq!(run.plan(), Err(SyncError::Corrupted(path("k"))));
    let before = tree(&[("a", b"fine"), ("k", b"0123456780"), ("z", b"fine too")]);
    assert_eq!(run.aosync(), Err(SyncError::Corrupted(path("k"))));
    assert_eq!(run.dst(), &before);
}

#[test]
fn full_verification_reports_the_first_corrupted_file() {
    let src = tree(&[("a", b"1"), ("b", b"22"), ("c", b"333"), ("d", b"4444")]);
    let dst = tree(&[("a", b"1"), ("b", b"2x"), ("c", b"333"), ("d", b"444x")]);
    let mut run = Aosync::new(src, dst);
    run.set_check(u32::MAX);
    assert_eq!(run.quick_pruning(), Err(SyncError::Corrupted(path("b"))));
}

#[test]
fn without_verification_corruption_passes_as_unchanged() {
    let src = tree(&[("k", b"0123456789")]);
    let dst = tree(&[("k", b"0123456780")]);
    let mut run = Aosync::new(src, dst);
    run.set_check(0);
    for _ in 0..50 {
        let pruned = run.quick_pruning().unwrap();
        assert_eq!(pruned.same_count, 1);
        assert_eq!(pruned.unmatched_src.len(), 0);
        assert_eq!(pruned.unmatched_dst.len(), 0);
    }
}

#[test]
fn equal_trees_always_pass_verification() {
    let files: Vec<(String, Vec<u8>)> = (0..200).map(|i| (format!("f{:03}", i), vec![i as u8; i])).collect();
    let mut src = FileTree::new();
    let mut dst = FileTree::new();
    for (p, c) in files.iter() {
        src.put(path(p), c.clone());
        dst.put(path(p), c.clone());
    }
    let mut run = Aosync::new(src, dst);
    let pruned = run.quick_pruning().unwrap();
    assert_eq!(pruned.same_count, 200);
    assert_eq!(pruned.unmatched_src.len(), 0);
    assert_eq!(pruned.unmatched_dst.len(), 0);
}

#[test]
fn partial_verification_finds_some_corrupted_file_or_none() {
    // every file differs, and the thread's generator decides which are
    // verified: either none is, or the first that is gets reported
    let mut src = FileTree::new();
    let mut dst = FileTree::new();
    for i in 0..200 {
        src.put(path(&format!("f{:03}", i)), vec![1u8; 4]);
        dst.put(path(&format!("f{:03}", i)), vec![2u8; 4]);
    }
    let mut run = Aosync::new(src, dst);
    match run.quick_pruning() {
        Ok(pruned) => {
            assert_eq!(pruned.same_count, 200);
        }
        Err(SyncError::Corrupted(p)) => {
            assert!(run.src().contains(&p));
        }
        Err(e) => panic!("{:?}", e),
    }
}

fn three_pairs() -> Aosync {
    // "b" and "c" differ between the trees, "x" is not unchanged
    let src = tree(&[("a", b"1111"), ("b", b"2222"), ("c", b"3333"), ("x", b"grown")]);
    let dst = tree(&[("a", b"1111"), ("b", b"2220"), ("c", b"3330"), ("x", b"gro")]);
    let mut run = Aosync::new(src, dst);
    // one chance in 2^24: a draw selects if its upper 24 bits are zero
    run.set_check(1);
    run
}

#[test]
fn scripted_draws_decide_which_files_are_verified() {
    let mut run = three_pairs();
    run.set_random_source(RandomSource::scripted(vec![0, 256, 255]));
    assert_eq!(run.quick_pruning(), Err(SyncError::Corrupted(path("c"))));

    let mut run = three_pairs();
    run.set_random_source(RandomSource::scripted(vec![255, 0, 0]));
    assert_eq!(run.quick_pruning(), Err(SyncError::Corrupted(path("b"))));

    let mut run = three_pairs();
    run.set_random_source(RandomSource::scripted(vec![0, 256, u32::MAX]));
    let pruned = run.quick_pruning().unwrap();
    assert_eq!(pruned.same_count, 3);
    assert_eq!(names(&pruned.unmatched_src), vec!["x"]);
    assert_eq!(names(&pruned.unmatched_dst), vec!["x"]);
}

#[test]
fn a_script_that_has_ended_selects_nothing() {
    let mut run = three_pairs();
    run.set_random_source(RandomSource::scripted(vec![]));
    assert_eq!(run.quick_pruning().unwrap().same_count, 3);
    let mut run = three_pairs();
    run.set_random_source(RandomSource::scripted(vec![0]));
    assert_eq!(run.quick_pruning().unwrap().same_count, 3);
    // unless every draw selects
    run.set_check(CHECK_ALWAYS);
    assert_eq!(run.quick_pruning(), Err(SyncError::Corrupted(path("b"))));
}

#[test]
fn only_unchanged_files_take_a_draw() {
    // "a" is unmatched and takes no draw: the first draw is for "k"
    let src = tree(&[("a", b"grown"), ("k", b"2222"), ("z", b"3333")]);
    let dst = tree(&[("a", b"gro"), ("k", b"2220"), ("z", b"3333")]);
    let mut run = Aosync::new(src, dst);
    run.set_check(1);
    run.set_random_source(RandomSource::scripted(vec![0, 256]));
    assert_eq!(run.quick_pruning(), Err(SyncError::Corrupted(path("k"))));
    let src = tree(&[("a", b"grown"), ("k", b"2222"), ("z", b"3333")]);
    let dst = tree(&[("a", b"gro"), ("k", b"2220"), ("z", b"3333")]);
    let mut run = Aosync::new(src, dst);
    run.set_check(1);
    run.set_random_source(RandomSource::scripted(vec![256, 0]));
    assert_eq!(run.quick_pruning().unwrap().same_count, 2);
}

#[test]
fn a_source_goes_on_where_it_stopped() {
    let mut run = three_pairs();
    run.set_random_source(RandomSource::scripted(vec![256, 256, 256, 256, 0, 256]));
    // the first walk takes three draws, the second fails at its second
    assert_eq!(run.quick_pruning().unwrap().same_count, 3);
    assert_eq!(run.quick_pruning(), Err(SyncError::Corrupted(path("b"))));
    // which leaves the last draw for "a"
    assert_eq!(run.quick_pruning().unwrap().same_count, 3);
}

#[test]
fn a_source_hands_out_its_script() {
    let mut source = RandomSource::scripted(vec![7, 0, u32::MAX - 1]);
    assert_eq!(source.draw(), 7);
    assert_eq!(source.draw(), 0);
    assert_eq!(source.draw(), u32::MAX - 1);
    assert_eq!(source.draw(), u32::MAX);
    assert_eq!(source.draw(), u32::MAX);
    let mut thread = RandomSource::thread();
    let first = thread.draw();
    let mut differs = false;
    for _ in 0..64 {
        if thread.draw() != first {
            differs = true;
        }
    }
    assert!(differs);
}
