use image_grouper::disjoint::DisjointSets;

#[test]
fn every_element_starts_in_a_set_of_its_own() {
    let mut sets = DisjointSets::new(5);
    assert_eq!(sets.sets(), 5);
    for x in 0..5 {
        assert_eq!(sets.find(x), x);
    }
}

#[test]
fn union_merges_two_sets_once() {
    let mut sets = DisjointSets::new(4);
    assert!(sets.union(0, 1));
    assert_eq!(sets.sets(), 3);
    assert!(!sets.union(1, 0));
    assert!(!sets.union(0, 0));
    assert_eq!(sets.sets(), 3);
    assert_eq!(sets.find(0), sets.find(1));
    assert_ne!(sets.find(0), sets.find(2));
    assert_ne!(sets.find(2), sets.find(3));
}

#[test]
fn sets_only_merge() {
    let mut sets = DisjointSets::new(8);
    assert!(sets.union(0, 1));
    assert!(sets.union(2, 3));
    assert!(sets.union(1, 3));
    let root = sets.find(0);
    for x in 0..4 {
        assert_eq!(sets.find(x), root);
    }
    assert!(sets.union(4, 5));
    assert!(sets.union(6, 7));
    assert!(sets.union(5, 7));
    assert!(sets.union(0, 7));
    assert_eq!(sets.sets(), 1);
    let root = sets.find(3);
    for x in 0..8 {
        assert_eq!(sets.find(x), root);
        assert!(!sets.union(x, (x + 3) % 8));
    }
}

#[test]
fn the_representative_is_an_element_of_the_set() {
    let mut sets = DisjointSets::new(6);
    sets.union(4, 2);
    let r = sets.find(4);
    assert!(r == 4 || r == 2);
    sets.union(2, 5);
    let r = sets.find(5);
    assert!(r == 4 || r == 2 || r == 5);
}

#[test]
fn a_long_chain_of_unions_leaves_one_set() {
    let n = 10_000;
    let mut sets = DisjointSets::new(n);
    for x in 1..n {
        assert!(sets.union(x - 1, x));
    }
    assert_eq!(sets.sets(), 1);
    let root = sets.find(0);
    assert_eq!(sets.find(n - 1), root);
}

#[test]
fn an_empty_partition_has_no_sets() {
    let sets = DisjointSets::new(0);
    assert_eq!(sets.sets(), 0);
}
