use image_grouper::graph::HammingMST;
use image_grouper::perceptual::hamming_distance;
use image_grouper::ImageEntry;
use std::path::PathBuf;

fn entries(hashes: &[u64]) -> Vec<ImageEntry> {
    hashes
        .iter()
        .enumerate()
        .map(|(i, &hash)| ImageEntry { hash, path: PathBuf::from(format!("{}.png", i)) })
        .collect()
}

fn tree_weight(tree: &HammingMST, hashes: &[u64]) -> u64 {
    let mut total = 0;
    for v in 0..tree.len() {
        for &c in tree.children(v).unwrap() {
            total += hamming_distance(hashes[v], hashes[c]);
        }
    }
    total
}

fn edge_count(tree: &HammingMST) -> usize {
    (0..tree.len()).map(|v| tree.children(v).unwrap().len()).sum()
}

#[test]
fn four_items_form_a_chain_with_union_find() {
    let hashes = [0x00u64, 0x01, 0x03, 0xFF];
    let tree = HammingMST::new(&entries(&hashes)).unwrap();
    assert_eq!(tree.len(), 4);
    assert_eq!(tree.root(), 0);
    assert_eq!(tree.children(0).unwrap(), &vec![1]);
    assert_eq!(tree.children(1).unwrap(), &vec![2]);
    assert_eq!(tree.children(2).unwrap(), &vec![3]);
    assert_eq!(tree.children(3).unwrap(), &Vec::<usize>::new());
    assert_eq!(tree_weight(&tree, &hashes), 8);
    assert_eq!(tree.dfs_preorder_iterative(), vec![0, 1, 2, 3]);
}

#[test]
fn four_items_form_a_chain_with_frontier_growth() {
    let hashes = [0x00u64, 0x01, 0x03, 0xFF];
    let tree = HammingMST::new_prims(&entries(&hashes)).unwrap();
    assert_eq!(tree.len(), 4);
    assert_eq!(tree.children(0).unwrap(), &vec![1]);
    assert_eq!(tree.children(1).unwrap(), &vec![2]);
    assert_eq!(tree.children(2).unwrap(), &vec![3]);
    assert_eq!(tree_weight(&tree, &hashes), 8);
    assert_eq!(tree.dfs_preorder_iterative(), vec![0, 1, 2, 3]);
}

#[test]
fn fewer_than_two_items_have_no_tree() {
    assert!(HammingMST::new(&entries(&[])).is_none());
    assert!(HammingMST::new(&entries(&[7])).is_none());
    assert!(HammingMST::new_prims(&entries(&[])).is_none());
    assert!(HammingMST::new_prims(&entries(&[7])).is_none());
}

#[test]
fn two_items_have_one_edge() {
    let hashes = [0xF0u64, 0x0F];
    let a = HammingMST::new(&entries(&hashes)).unwrap();
    let b = HammingMST::new_prims(&entries(&hashes)).unwrap();
    assert_eq!(a.children(0).unwrap(), &vec![1]);
    assert_eq!(b.children(0).unwrap(), &vec![1]);
    assert_eq!(tree_weight(&a, &hashes), 8);
    assert_eq!(tree_weight(&b, &hashes), 8);
}

fn scrambled(n: usize, seed: u64) -> Vec<u64> {
    let mut x = seed;
    (0..n)
        .map(|_| {
            x ^= x << 13;
            x ^= x >> 7;
            x ^= x << 17;
            x
        })
        .collect()
}

#[test]
fn both_builders_agree_on_the_weight() {
    for seed in 1..20u64 {
        let hashes = scrambled(2 + (seed as usize * 3) % 40, seed * 0x9E37_79B9);
        let items = entries(&hashes);
        let a = HammingMST::new(&items).unwrap();
        let b = HammingMST::new_prims(&items).unwrap();
        assert_eq!(tree_weight(&a, &hashes), tree_weight(&b, &hashes));
    }
}

#[test]
fn tree_has_one_edge_less_than_vertices_and_beats_the_chain() {
    for seed in 1..20u64 {
        let hashes = scrambled(2 + (seed as usize * 5) % 50, seed * 0x51_7C_C1B7);
        let items = entries(&hashes);
        let chain: u64 = hashes.windows(2).map(|w| hamming_distance(w[0], w[1])).sum();
        for tree in [HammingMST::new(&items).unwrap(), HammingMST::new_prims(&items).unwrap()] {
            assert_eq!(tree.len(), hashes.len());
            assert_eq!(edge_count(&tree), hashes.len() - 1);
            assert!(tree_weight(&tree, &hashes) <= chain);
        }
    }
}

#[test]
fn equal_fingerprints_still_span() {
    let hashes = [5u64; 9];
    let items = entries(&hashes);
    for tree in [HammingMST::new(&items).unwrap(), HammingMST::new_prims(&items).unwrap()] {
        assert_eq!(edge_count(&tree), 8);
        assert_eq!(tree_weight(&tree, &hashes), 0);
        let mut order = tree.dfs_preorder_iterative();
        assert_eq!(order[0], 0);
        order.sort();
        assert_eq!(order, (0..9).collect::<Vec<_>>());
    }
}

#[test]
fn preorder_visits_every_vertex_once_root_first() {
    for seed in 1..20u64 {
        let hashes = scrambled(2 + (seed as usize * 7) % 60, seed * 0x2545_F491);
        let items = entries(&hashes);
        for tree in [HammingMST::new(&items).unwrap(), HammingMST::new_prims(&items).unwrap()] {
            let order = tree.dfs_preorder_iterative();
            assert_eq!(order.len(), hashes.len());
            assert_eq!(order[0], 0);
            let mut sorted = order.clone();
            sorted.sort();
            assert_eq!(sorted, (0..hashes.len()).collect::<Vec<_>>());
        }
    }
}

#[test]
fn leaves_are_emitted() {
    // a star: every vertex is a leaf under the root
    let hashes = [0u64, 1, 2, 4, 8];
    let tree = HammingMST::new_prims(&entries(&hashes)).unwrap();
    let order = tree.dfs_preorder_iterative();
    assert_eq!(order.len(), 5);
    let mut sorted = order.clone();
    sorted.sort();
    assert_eq!(sorted, vec![0, 1, 2, 3, 4]);
}

#[test]
fn stepwise_walk_equals_the_preorder() {
    let hashes = scrambled(33, 99);
    let tree = HammingMST::new(&entries(&hashes)).unwrap();
    let mut walk = tree.iter();
    let mut seen = Vec::new();
    let mut steps = 0;
    while let Some(step) = walk.next() {
        if let Some(v) = step {
            seen.push(v);
        }
        steps += 1;
        assert!(steps < 1000);
    }
    assert_eq!(walk.next(), None);
    assert_eq!(seen, tree.dfs_preorder_iterative());
}

#[test]
fn a_deep_chain_needs_no_call_stack() {
    // fingerprint i has its lowest i bits set up to 64, then repeats: long chains
    let hashes: Vec<u64> = (0..3000u64).map(|i| i).collect();
    let tree = HammingMST::new(&entries(&hashes)).unwrap();
    let order = tree.dfs_preorder_iterative();
    assert_eq!(order.len(), 3000);
}

#[test]
fn children_of_a_missing_vertex() {
    let tree = HammingMST::new(&entries(&[1, 2, 3])).unwrap();
    assert!(tree.children(3).is_none());
    assert!(tree.children(2).is_some());
}

#[test]
fn weight_of_the_chain_of_four_items() {
    let hashes = [0x00u64, 0x01, 0x03, 0xFF];
    let items = entries(&hashes);
    assert_eq!(HammingMST::new(&items).unwrap().weight(&items), Some(8));
    assert_eq!(HammingMST::new_prims(&items).unwrap().weight(&items), Some(8));
}

#[test]
fn weight_needs_as_many_items_as_vertices() {
    let items = entries(&[1, 2, 4]);
    let tree = HammingMST::new(&items).unwrap();
    assert_eq!(tree.weight(&items[..2]), None);
    assert_eq!(tree.weight(&entries(&[1, 2, 4, 8])), None);
    assert_eq!(tree.weight(&items), Some(4));
}

#[test]
fn weight_agrees_with_the_sum_over_the_child_lists() {
    for seed in 1..10u64 {
        let hashes = scrambled(3 + (seed as usize * 11) % 70, seed * 0xABCD_EF01);
        let items = entries(&hashes);
        let a = HammingMST::new(&items).unwrap();
        let b = HammingMST::new_prims(&items).unwrap();
        assert_eq!(a.weight(&items), Some(tree_weight(&a, &hashes) as u128));
        assert_eq!(b.weight(&items), Some(tree_weight(&b, &hashes) as u128));
        assert_eq!(a.weight(&items), b.weight(&items));
    }
}

#[test]
fn the_minimum_is_no_heavier_than_a_star_or_a_chain() {
    for seed in 1..10u64 {
        let hashes = scrambled(2 + (seed as usize * 13) % 30, seed * 0x1357_9BDF);
        let items = entries(&hashes);
        let star: u64 = hashes[1..].iter().map(|&h| hamming_distance(hashes[0], h)).sum();
        let chain: u64 = hashes.windows(2).map(|w| hamming_distance(w[0], w[1])).sum();
        let best = HammingMST::new(&items).unwrap().weight(&items).unwrap();
        assert!(best <= star as u128);
        assert!(best <= chain as u128);
    }
}

#[test]
fn the_minimum_of_three_items_is_found_by_hand() {
    // distances: 0-1 = 3, 0-2 = 5, 1-2 = 2: the tree takes 1-2 and 0-1
    let hashes = [0b00000u64, 0b00111, 0b11111];
    let items = entries(&hashes);
    for tree in [HammingMST::new(&items).unwrap(), HammingMST::new_prims(&items).unwrap()] {
        assert_eq!(tree.weight(&items), Some(5));
        assert_eq!(tree.children(0).unwrap(), &vec![1]);
        assert_eq!(tree.children(1).unwrap(), &vec![2]);
        assert_eq!(tree.graph().len(), 3);
        assert_eq!(tree.graph()[2], Vec::<usize>::new());
    }
}

#[test]
fn a_walk_hands_out_the_root_first_and_ends() {
    let items = entries(&[0, 1, 3]);
    let tree = HammingMST::new(&items).unwrap();
    let mut walk = tree.iter();
    // the root is emitted at its first pop
    assert_eq!(walk.next(), Some(Some(0)));
    assert_eq!(walk.next(), Some(Some(1)));
    assert_eq!(walk.next(), Some(Some(2)));
    // the frames of 1 and 0 are popped once more and have no child left
    assert_eq!(walk.next(), Some(None));
    assert_eq!(walk.next(), Some(None));
    assert_eq!(walk.next(), None);
    assert_eq!(walk.next(), None);
}

#[test]
fn children_stand_in_the_order_in_which_their_edges_were_kept() {
    // distances: 0-1 = 1, 2-3 = 2, 0-2 = 4, 1-2 = 5, 1-3 = 5, 0-3 = 6
    let hashes = [0x00u64, 0x01, 0xF0, 0xF3];
    let items = entries(&hashes);
    let tree = HammingMST::new(&items).unwrap();
    assert_eq!(tree.graph(), &vec![vec![1, 2], vec![], vec![3], vec![]]);
    assert_eq!(tree.weight(&items), Some(7));
    assert_eq!(tree.dfs_preorder_iterative(), vec![0, 1, 2, 3]);
}

#[test]
fn children_stand_in_the_order_in_which_they_joined() {
    let hashes = [0x00u64, 0x01, 0xF0, 0xF3];
    let items = entries(&hashes);
    let tree = HammingMST::new_prims(&items).unwrap();
    // vertex 2 hangs on 0, at distance 4, not on 1, at distance 5
    assert_eq!(tree.graph(), &vec![vec![1, 2], vec![], vec![3], vec![]]);
    assert_eq!(tree.weight(&items), Some(7));
}

#[test]
fn edges_of_one_weight_are_kept_in_the_order_of_the_pairs() {
    // distances: 0-1 = 1, 0-2 = 1, 0-3 = 1, all others 2
    let hashes = [0u64, 4, 2, 1];
    let items = entries(&hashes);
    let tree = HammingMST::new(&items).unwrap();
    assert_eq!(tree.graph(), &vec![vec![1, 2, 3], vec![], vec![], vec![]]);
    // a heavier edge comes after a lighter one, whatever the vertex numbers
    let hashes = [0u64, 0b111, 0b1];
    let items = entries(&hashes);
    let tree = HammingMST::new(&items).unwrap();
    assert_eq!(tree.graph(), &vec![vec![2], vec![], vec![1]]);
    let hashes = [0u64, 0b11, 0b1000, 0b1];
    let items = entries(&hashes);
    let tree = HammingMST::new(&items).unwrap();
    // kept: 0-2 and 0-3 (weight 1, in pair order), then 1-3 (weight 1)
    assert_eq!(tree.graph(), &vec![vec![2, 3], vec![], vec![], vec![1]]);
}
