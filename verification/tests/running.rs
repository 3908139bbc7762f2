use abak::aosync::{Aosync, SyncPlan, SyncReport};
use abak::error::SyncError;
use abak::path::RelPath;
use abak::random::{RandomSource, CHECK_ALWAYS};
use abak::sync_item::SyncItem;
use abak::tree::FileTree;

fn path(s: &str) -> RelPath {
    RelPath::new(s.as_bytes().to_vec())
}

fn tree(files: &[(&str, &[u8])]) -> FileTree {
    let mut t = FileTree::new();
    for (p, c) in files.iter() {
        t.put(path(p), c.to_vec());
    }
    t
}

fn item(src: &str, dst: &str, offset: u64, len: u64) -> SyncItem {
    SyncItem { src: path(src), dst: path(dst), offset, len }
}

const X: &[u8] = b"0123456789";
const XY: &[u8] = b"0123456789abcdefghij";

fn scenario() -> Aosync {
    let mut run = Aosync::new(tree(&[("a/one.bin", X), ("a/two.bin", XY)]), tree(&[("old.bin", X)]));
    run.set_check(CHECK_ALWAYS);
    run
}

fn scenario_plan() -> SyncPlan {
    SyncPlan {
        append_items: vec![item("a/two.bin", "old.bin", 10, 10)],
        new_items: vec![item("a/one.bin", "a/one.bin", 0, 10)],
        same_count: 0,
        new_len: 10,
        move_len: 10,
    }
}

#[test]
fn a_file_that_equals_one_source_and_starts_another_is_ambiguous() {
    // the destination file is all of one source file and the start of
    // another: either may be what it grew into
    let mut run = scenario();
    assert_eq!(run.plan(), Err(SyncError::AmbiguousMatch(path("old.bin"))));
    assert_eq!(run.aosync(), Err(SyncError::AmbiguousMatch(path("old.bin"))));
    assert_eq!(run.dst(), &tree(&[("old.bin", X)]));
}

#[test]
fn one_new_file_and_one_grown_and_moved() {
    let z: &[u8] = b"9876543210";
    let mut run = Aosync::new(tree(&[("a/one.bin", z), ("a/two.bin", XY)]), tree(&[("old.bin", X)]));
    run.set_check(CHECK_ALWAYS);
    assert_eq!(run.plan(), Ok(scenario_plan()));
    let report = run.aosync().unwrap();
    assert_eq!(report.plan, scenario_plan());
    assert_eq!(report.moves, vec![(path("a/two.bin.abakt"), path("a/two.bin"))]);
    assert_eq!(run.dst(), &tree(&[("a/one.bin", z), ("a/two.bin", XY)]));
    assert!(!run.dst().contains(&path("old.bin")));
    assert_eq!(run.dst(), run.src());
}

#[test]
fn a_dry_run_changes_nothing() {
    let z: &[u8] = b"9876543210";
    let mut run = Aosync::new(tree(&[("a/one.bin", z), ("a/two.bin", XY)]), tree(&[("old.bin", X)]));
    run.set_dry_run();
    let report = run.aosync().unwrap();
    assert_eq!(report, SyncReport { plan: scenario_plan(), moves: vec![] });
    assert_eq!(run.dst(), &tree(&[("old.bin", X)]));
}

#[test]
fn the_counts_add_up() {
    let src = tree(&[
        ("a", b"same"),
        ("b", b"grown!"),
        ("c", b"only in source"),
        ("d/e", b"moved and grown"),
        ("f", b"kept"),
        ("g", b"another new one"),
    ]);
    let dst = tree(&[("a", b"same"), ("b", b"grown"), ("f", b"kept"), ("was/e", b"moved")]);
    let mut run = Aosync::new(src, dst);
    run.set_check(CHECK_ALWAYS);
    let plan = run.plan().unwrap();
    assert_eq!(plan.same_count, 2);
    assert_eq!(plan.append_items, vec![item("b", "b", 5, 1), item("d/e", "was/e", 5, 10)]);
    assert_eq!(plan.new_items, vec![item("c", "c", 0, 14), item("g", "g", 0, 15)]);
    assert_eq!(plan.same_count + plan.append_items.len() + plan.new_items.len(), run.src().len());
    assert_eq!(plan.new_len, 29);
    assert_eq!(plan.move_len, 11);
    let report = run.aosync().unwrap();
    assert_eq!(report.plan, plan);
    assert_eq!(report.moves, vec![(path("b.abakt"), path("b")), (path("d/e.abakt"), path("d/e"))]);
    assert_eq!(run.dst(), run.src());
}

#[test]
fn a_second_run_finds_nothing_to_do() {
    let src = tree(&[("a", b"same"), ("b", b"grown!"), ("c", b"new"), ("d/e", b"moved and grown")]);
    let dst = tree(&[("a", b"same"), ("b", b"grown"), ("was/e", b"moved")]);
    let mut run = Aosync::new(src, dst);
    run.set_check(CHECK_ALWAYS);
    run.aosync().unwrap();
    let after_first = tree(&[("a", b"same"), ("b", b"grown!"), ("c", b"new"), ("d/e", b"moved and grown")]);
    assert_eq!(run.dst(), &after_first);
    let report = run.aosync().unwrap();
    assert_eq!(
        report,
        SyncReport {
            plan: SyncPlan { append_items: vec![], new_items: vec![], same_count: 4, new_len: 0, move_len: 0 },
            moves: vec![],
        }
    );
    assert_eq!(run.dst(), &after_first);
}

#[test]
fn the_limit_is_reached_by_equal_bytes() {
    let src = tree(&[("b", b"grown!"), ("c", b"only in source")]);
    let dst = tree(&[("b", b"grown")]);
    let mut run = Aosync::new(src, dst);
    run.set_check(0);
    run.set_limit(15);
    assert_eq!(run.plan(), Err(SyncError::LimitExceeded));
    assert_eq!(run.aosync(), Err(SyncError::LimitExceeded));
    assert_eq!(run.dst(), &tree(&[("b", b"grown")]));
    run.set_limit(14);
    assert_eq!(run.plan(), Err(SyncError::LimitExceeded));
    run.set_limit(0);
    assert_eq!(run.plan(), Err(SyncError::LimitExceeded));
    run.set_limit(16);
    let plan = run.plan().unwrap();
    assert_eq!(plan.new_len + plan.move_len, 15);
    run.aosync().unwrap();
    assert_eq!(run.dst(), run.src());
    // with nothing left to transfer only a limit of zero is reached
    run.set_limit(1);
    assert!(run.plan().is_ok());
    run.set_limit(0);
    assert_eq!(run.plan(), Err(SyncError::LimitExceeded));
}

#[test]
fn unverified_corruption_survives_a_run() {
    let src = tree(&[("k", b"0123456789"), ("n", b"new")]);
    let dst = tree(&[("k", b"0123456780")]);
    let mut run = Aosync::new(src, dst);
    run.set_check(0);
    let report = run.aosync().unwrap();
    assert_eq!(report.plan.same_count, 1);
    assert_eq!(run.dst(), &tree(&[("k", b"0123456780"), ("n", b"new")]));
}

#[test]
fn an_unexplained_destination_file_ends_the_run() {
    let mut run = Aosync::new(tree(&[("a", b"abc")]), tree(&[("gone", b"deleted in source")]));
    assert_eq!(run.aosync(), Err(SyncError::NoSourceMatch(path("gone"))));
    assert_eq!(run.dst(), &tree(&[("gone", b"deleted in source")]));
    // a file that shrank is not explained either
    let mut run = Aosync::new(tree(&[("a", b"ab")]), tree(&[("a", b"abc")]));
    assert_eq!(run.aosync(), Err(SyncError::NoSourceMatch(path("a"))));
}

#[test]
fn files_may_trade_places() {
    // each destination file grew into the source file at the other's path
    let src = tree(&[("a", b"bbbb+"), ("b", b"aa+")]);
    let dst = tree(&[("a", b"aa"), ("b", b"bbbb")]);
    let mut run = Aosync::new(src, dst);
    run.set_check(CHECK_ALWAYS);
    let report = run.aosync().unwrap();
    assert_eq!(report.plan.append_items, vec![item("a", "b", 4, 1), item("b", "a", 2, 1)]);
    assert_eq!(report.moves, vec![(path("a.abakt"), path("a")), (path("b.abakt"), path("b"))]);
    assert_eq!(run.dst(), run.src());
}

#[test]
fn a_temporary_name_may_be_that_of_a_file_moved_before() {
    let src = tree(&[("q", b"CD"), ("x", b"AB")]);
    let dst = tree(&[("x.abakt", b"C"), ("y", b"A")]);
    let mut run = Aosync::new(src, dst);
    let report = run.aosync().unwrap();
    assert_eq!(report.plan.append_items, vec![item("q", "x.abakt", 1, 1), item("x", "y", 1, 1)]);
    assert_eq!(report.moves, vec![(path("q.abakt"), path("q")), (path("x.abakt"), path("x"))]);
    assert_eq!(run.dst(), run.src());
}

#[test]
fn an_occupied_temporary_name_is_passed_over() {
    let src = tree(&[("x", b"AB"), ("z", b"CD")]);
    let dst = tree(&[("x.abakt", b"C"), ("y", b"A")]);
    let mut run = Aosync::new(src, dst);
    let report = run.aosync().unwrap();
    assert_eq!(report.plan.append_items, vec![item("x", "y", 1, 1), item("z", "x.abakt", 1, 1)]);
    assert_eq!(
        report.moves,
        vec![(path("x.abakt.abakt"), path("x")), (path("z.abakt"), path("z"))]
    );
    assert_eq!(run.dst(), run.src());
}

#[test]
fn a_final_name_may_be_the_temporary_name_of_an_earlier_item() {
    let src = tree(&[("x", b"AB"), ("x.abakt", b"CD")]);
    let dst = tree(&[("a", b"A"), ("b", b"C")]);
    let mut run = Aosync::new(src, dst);
    let report = run.aosync().unwrap();
    assert_eq!(
        report.moves,
        vec![(path("x.abakt"), path("x")), (path("x.abakt.abakt"), path("x.abakt"))]
    );
    assert_eq!(run.dst(), run.src());
}

#[test]
fn a_new_file_under_a_temporary_name_ends_the_run() {
    let src = tree(&[("n", b"new"), ("x", b"AB"), ("x.abakt", b"also new")]);
    let dst = tree(&[("y", b"A")]);
    let mut run = Aosync::new(src, dst);
    assert_eq!(run.plan().unwrap().new_items, vec![item("n", "n", 0, 3), item("x.abakt", "x.abakt", 0, 8)]);
    assert_eq!(run.aosync(), Err(SyncError::AlreadyExists(path("x.abakt"))));
    // the append phase and the first new file are done, no final name is given
    assert_eq!(run.dst(), &tree(&[("n", b"new"), ("x.abakt", b"AB")]));
}

#[test]
fn the_short_call_runs_without_verification() {
    let z: &[u8] = b"9876543210";
    let src = tree(&[("a/one.bin", z), ("a/two.bin", XY), ("k", b"0123456789")]);
    let dst = tree(&[("k", b"0123456780"), ("old.bin", X)]);
    let (after, result) = abak::aosync(src, dst, false);
    let report = result.unwrap();
    assert_eq!(report.plan.same_count, 1);
    assert_eq!(report.plan.new_items, vec![item("a/one.bin", "a/one.bin", 0, 10)]);
    assert_eq!(report.plan.append_items, vec![item("a/two.bin", "old.bin", 10, 10)]);
    assert_eq!(after, tree(&[("a/one.bin", z), ("a/two.bin", XY), ("k", b"0123456780")]));

    let src = tree(&[("a/one.bin", z), ("a/two.bin", XY)]);
    let (after, result) = abak::aosync(src, tree(&[("old.bin", X)]), true);
    assert_eq!(result.unwrap().moves, vec![]);
    assert_eq!(after, tree(&[("old.bin", X)]));

    let (after, result) = abak::aosync(tree(&[]), tree(&[("old.bin", X)]), false);
    assert_eq!(result, Err(SyncError::NoSourceMatch(path("old.bin"))));
    assert_eq!(after, tree(&[("old.bin", X)]));
}

#[test]
fn errors_describe_themselves() {
    assert_eq!(SyncError::LimitExceeded.message(), "limit exceeded");
    assert_eq!(SyncError::LimitExceeded.path(), None);
    let e = SyncError::AmbiguousMatch(path("old"));
    assert_eq!(e.path(), Some(&path("old")));
    assert_eq!(e.message(), "destination file matched several source files");
    assert_eq!(SyncError::NoSourceMatch(path("p")).message(), "destination file matched no source file");
    assert_eq!(SyncError::DuplicateSource(path("p")).message(), "source file matched several destination files");
    assert_eq!(SyncError::Corrupted(path("p")).message(), "size matches but comparison fails, corruption?");
    assert_eq!(SyncError::MissingFile(path("p")).path(), Some(&path("p")));
    assert_eq!(SyncError::AlreadyExists(path("p")).path(), Some(&path("p")));
}

#[test]
fn many_files_in_one_run() {
    let mut src = FileTree::new();
    let mut dst = FileTree::new();
    let mut expected_same = 0;
    let mut expected_append = 0;
    let mut expected_new = 0;
    for i in 0..300usize {
        let body: Vec<u8> = format!("file number {} ", i).into_bytes().repeat(1 + i % 7);
        match i % 3 {
            0 => {
                src.put(path(&format!("keep/{:03}", i)), body.clone());
                dst.put(path(&format!("keep/{:03}", i)), body);
                expected_same += 1;
            }
            1 => {
                let mut grown = body.clone();
                grown.extend_from_slice(b"and more");
                src.put(path(&format!("now/{:03}", i)), grown);
                dst.put(path(&format!("then/{:03}", 299 - i)), body);
                expected_append += 1;
            }
            _ => {
                src.put(path(&format!("new/{:03}", i)), body);
                expected_new += 1;
            }
        }
    }
    let mut run = Aosync::new(src, dst);
    run.set_check(CHECK_ALWAYS);
    let report = run.aosync().unwrap();
    assert_eq!(report.plan.same_count, expected_same);
    assert_eq!(report.plan.append_items.len(), expected_append);
    assert_eq!(report.plan.new_items.len(), expected_new);
    assert_eq!(report.plan.move_len, 8 * expected_append as u64);
    assert_eq!(run.dst(), run.src());
    for it in report.plan.append_items.iter() {
        assert_eq!(it.len, 8);
    }
}

#[test]
fn a_scripted_run_is_repeatable() {
    let src = || tree(&[("a", b"1111"), ("b", b"2222"), ("n", b"new")]);
    let dst = || tree(&[("a", b"1111"), ("b", b"2220")]);
    let mut run = Aosync::new(src(), dst());
    run.set_check(CHECK_ALWAYS / 2);
    // the upper 24 bits of the second draw are CHECK_ALWAYS / 2 - 1: selected
    run.set_random_source(RandomSource::scripted(vec![u32::MAX, (CHECK_ALWAYS / 2 - 1) * 256 + 255]));
    assert_eq!(run.aosync(), Err(SyncError::Corrupted(path("b"))));
    assert_eq!(run.dst(), &dst());
    // they are CHECK_ALWAYS / 2: not selected
    let mut run = Aosync::new(src(), dst());
    run.set_check(CHECK_ALWAYS / 2);
    run.set_random_source(RandomSource::scripted(vec![u32::MAX, (CHECK_ALWAYS / 2) * 256]));
    let report = run.aosync().unwrap();
    assert_eq!(report.plan.same_count, 2);
    assert_eq!(report.plan.new_items, vec![item("n", "n", 0, 3)]);
    assert_eq!(run.dst(), &tree(&[("a", b"1111"), ("b", b"2220"), ("n", b"new")]));
}
