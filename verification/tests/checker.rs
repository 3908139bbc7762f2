use abak::append_checker::{same_bytes, AppendChecker, BUFLEN};
use abak::error::SyncError;
use abak::file_list::FileList;
use abak::ord_test::{sample_objects, SAMPLE_LEN};
use abak::path::RelPath;
use abak::random::{selected, CHECK_ALWAYS, CHECK_DEFAULT};
use abak::sorting::sort_pairs;
use abak::tree::FileTree;

fn path(s: &str) -> RelPath {
    RelPath::new(s.as_bytes().to_vec())
}

fn list(names: &[&str]) -> FileList {
    FileList::from_sorted(names.iter().map(|n| path(n)).collect()).unwrap()
}

fn pattern(len: usize, seed: u8) -> Vec<u8> {
    (0..len).map(|i| (i as u8).wrapping_mul(31).wrapping_add(seed)).collect()
}

#[test]
fn the_default_chunk_is_a_mebibyte() {
    assert_eq!(BUFLEN, 1 << 20);
    assert_eq!(AppendChecker::default(), AppendChecker::with_chunk_len(1 << 20).unwrap());
    assert!(AppendChecker::with_chunk_len(0).is_none());
}

#[test]
fn a_prefix_is_recognised() {
    let checker = AppendChecker::default();
    let src = b"0123456789".to_vec();
    assert!(checker.is_append_of(&src, &b"01234".to_vec()));
    assert!(checker.is_append_of(&src, &src.clone()));
    assert!(checker.is_append_of(&src, &Vec::new()));
    assert!(checker.is_append_of(&Vec::new(), &Vec::new()));
}

#[test]
fn a_difference_or_a_short_source_is_refused() {
    let checker = AppendChecker::default();
    let src = b"0123456789".to_vec();
    assert!(!checker.is_append_of(&src, &b"01235".to_vec()));
    assert!(!checker.is_append_of(&src, &b"1".to_vec()));
    assert!(!checker.is_append_of(&src, &b"0123456789a".to_vec()));
    assert!(!checker.is_append_of(&Vec::new(), &b"0".to_vec()));
    assert!(!checker.is_append_of(&b"01234".to_vec(), &src));
}

#[test]
fn the_chunk_length_does_not_change_the_answer() {
    let src = pattern(1000, 7);
    for chunk in [1usize, 2, 3, 7, 64, 999, 1000, 1001, 4096] {
        let checker = AppendChecker::with_chunk_len(chunk).unwrap();
        for cut in [0usize, 1, 2, 63, 64, 65, 500, 999, 1000] {
            let dst = src[..cut].to_vec();
            assert!(checker.is_append_of(&src, &dst));
            if cut > 0 {
                for at in [0usize, cut / 2, cut - 1] {
                    let mut bad = dst.clone();
                    bad[at] ^= 1;
                    assert!(!checker.is_append_of(&src, &bad));
                }
                assert!(!checker.is_append_of(&dst[..cut - 1].to_vec(), &dst));
            }
        }
    }
}

#[test]
fn same_bytes_looks_at_the_range_only() {
    let a = b"abcdef".to_vec();
    let b = b"xbcdez".to_vec();
    assert!(same_bytes(&a, &b, 1, 5));
    assert!(!same_bytes(&a, &b, 0, 5));
    assert!(!same_bytes(&a, &b, 1, 6));
    assert!(same_bytes(&a, &b, 3, 3));
}

#[test]
fn a_sample_is_the_start_of_the_file() {
    assert_eq!(SAMPLE_LEN, 4096);
    let mut tree = FileTree::new();
    tree.put(path("empty"), Vec::new());
    tree.put(path("exact"), pattern(4096, 1));
    tree.put(path("long"), pattern(10000, 2));
    tree.put(path("short"), pattern(10, 3));
    let objects = sample_objects(&tree, &list(&["empty", "exact", "long", "short"])).unwrap();
    assert_eq!(objects.len(), 4);
    assert_eq!(objects[0].path, path("empty"));
    assert_eq!(objects[0].sample_len(), 0);
    assert_eq!(objects[1].sample, pattern(4096, 1));
    assert_eq!(objects[2].path, path("long"));
    assert_eq!(objects[2].sample_len(), 4096);
    assert_eq!(objects[2].sample, pattern(10000, 2)[..4096].to_vec());
    assert_eq!(objects[3].sample, pattern(10, 3));
    assert_eq!(objects[3].sample_len(), 10);
}

#[test]
fn sampling_fails_at_the_first_missing_file() {
    let mut tree = FileTree::new();
    tree.put(path("a"), pattern(3, 0));
    tree.put(path("d"), pattern(3, 0));
    assert_eq!(
        sample_objects(&tree, &list(&["a", "b", "c", "d"])),
        Err(SyncError::MissingFile(path("b")))
    );
    assert_eq!(sample_objects(&tree, &list(&[])), Ok(vec![]));
}

#[test]
fn the_upper_bits_of_a_draw_decide() {
    assert_eq!(CHECK_ALWAYS, 1 << 24);
    assert_eq!(CHECK_DEFAULT, 503317);
    assert!(selected(0, 1));
    assert!(selected(255, 1));
    assert!(!selected(256, 1));
    assert!(selected(256, 2));
    assert!(!selected(0, 0));
    assert!(!selected(u32::MAX, 0));
    assert!(selected(u32::MAX, CHECK_ALWAYS));
    assert!(!selected(u32::MAX, CHECK_ALWAYS - 1));
    assert!(selected(u32::MAX - 256, CHECK_ALWAYS - 1));
    assert!(selected(u32::MAX, u32::MAX));
    assert!(selected(503316 * 256 + 255, CHECK_DEFAULT));
    assert!(!selected(503317 * 256, CHECK_DEFAULT));
}

#[test]
fn the_default_level_is_three_in_a_hundred() {
    // the chances in 2^24 that a uniform number in [0, 1), drawn with 24
    // bits, is below 0.03
    let mut count: u32 = 0;
    let mut k: u32 = 503000;
    while k < 504000 {
        if (k as f32) * (1.0 / 16777216.0) < 0.03f32 {
            count = k + 1;
        }
        k += 1;
    }
    assert_eq!(count, CHECK_DEFAULT);
}

#[test]
fn pairs_are_sorted_by_first_then_second() {
    let mut v = vec![(3, 1), (1, 2), (2, 9), (1, 1), (3, 0), (0, 7), (1, 2)];
    sort_pairs(&mut v);
    assert_eq!(v, vec![(0, 7), (1, 1), (1, 2), (1, 2), (2, 9), (3, 0), (3, 1)]);
    let mut v: Vec<(usize, usize)> = vec![];
    sort_pairs(&mut v);
    assert_eq!(v, vec![]);
    let mut v = vec![(5, 5)];
    sort_pairs(&mut v);
    assert_eq!(v, vec![(5, 5)]);
    let mut v: Vec<(usize, usize)> = (0..1000).map(|i| ((i * 7919) % 1000, i)).collect();
    let mut expected = v.clone();
    expected.sort();
    sort_pairs(&mut v);
    assert_eq!(v, expected);
}
