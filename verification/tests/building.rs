use image_grouper::collect_fingerprints;
use image_grouper::kruskal::bucket_edges;
use image_grouper::prim::frontier_candidates;
use image_grouper::ImageEntry;
use std::path::PathBuf;

#[test]
fn fingerprints_are_collected_in_input_order() {
    let nodes: Vec<ImageEntry> =
        [4u64, 2, 9].iter().map(|&hash| ImageEntry { hash, path: PathBuf::new() }).collect();
    assert_eq!(collect_fingerprints(&nodes), vec![4, 2, 9]);
    assert_eq!(collect_fingerprints(&[]), Vec::<u64>::new());
}

#[test]
fn pairs_are_sorted_into_buckets_by_distance() {
    let buckets = bucket_edges(&vec![0x00, 0x01, 0x03, 0xFF]);
    assert_eq!(buckets.len(), 65);
    assert_eq!(buckets[1], vec![(0, 1), (1, 2)]);
    assert_eq!(buckets[2], vec![(0, 2)]);
    assert_eq!(buckets[6], vec![(2, 3)]);
    assert_eq!(buckets[7], vec![(1, 3)]);
    assert_eq!(buckets[8], vec![(0, 3)]);
    let total: usize = buckets.iter().map(|b| b.len()).sum();
    assert_eq!(total, 6);
}

#[test]
fn equal_codes_fill_bucket_zero_in_order_of_enumeration() {
    let buckets = bucket_edges(&vec![5, 5, 5]);
    assert_eq!(buckets[0], vec![(0, 1), (0, 2), (1, 2)]);
}

#[test]
fn fewer_than_two_codes_have_no_pairs() {
    assert!(bucket_edges(&vec![]).iter().all(|b| b.is_empty()));
    assert!(bucket_edges(&vec![3]).iter().all(|b| b.is_empty()));
}

#[test]
fn a_frontier_scan_holds_every_pair_across_the_frontier() {
    let fps = vec![0x00u64, 0x01, 0x03, 0xFF];
    let in_tree = vec![true, false, true, false];
    let cands = frontier_candidates(&fps, &vec![2, 0], &in_tree);
    // in the order of the visited list, and for each in ascending order
    assert_eq!(cands, vec![(2, 1, 1), (2, 3, 6), (0, 1, 1), (0, 3, 8)]);
}

#[test]
fn a_full_tree_has_no_frontier() {
    let fps = vec![1u64, 2];
    assert!(frontier_candidates(&fps, &vec![0, 1], &vec![true, true]).is_empty());
}
