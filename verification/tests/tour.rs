use image_grouper::graph::{iteratively_improve_tour, HammingMST};
use image_grouper::tour::{budget_left, tour_cost_of, try_swap};
use image_grouper::ImageEntry;
use std::path::PathBuf;

fn items(hashes: &[u64]) -> Vec<ImageEntry> {
    hashes.iter().map(|&hash| ImageEntry { hash, path: PathBuf::from("x.png") }).collect()
}

fn noise(n: usize, seed: u64) -> Vec<u64> {
    let mut x = seed;
    (0..n)
        .map(|_| {
            x ^= x << 13;
            x ^= x >> 7;
            x ^= x << 17;
            x
        })
        .collect()
}

#[test]
fn cost_is_the_sum_of_the_distances_of_neighbours() {
    let nodes = items(&[0x00, 0x01, 0x03, 0xFF]);
    assert_eq!(tour_cost_of(&vec![0, 1, 2, 3], &nodes), 8);
    assert_eq!(tour_cost_of(&vec![3, 2, 1, 0], &nodes), 8);
    assert_eq!(tour_cost_of(&vec![0, 3, 1, 2], &nodes), 8 + 7 + 1);
    assert_eq!(tour_cost_of(&vec![1, 0, 2, 3], &nodes), 1 + 2 + 6);
    // the path is open: the way back from the last item does not count
    assert_eq!(tour_cost_of(&vec![0, 3], &nodes), 8);
}

#[test]
fn short_tours_cost_nothing() {
    let nodes = items(&[5, 6]);
    assert_eq!(tour_cost_of(&vec![], &nodes), 0);
    assert_eq!(tour_cost_of(&vec![1], &nodes), 0);
}

#[test]
fn a_swap_that_helps_is_kept() {
    let nodes = items(&[0x00, 0x01, 0x03, 0xFF]);
    let mut tour = vec![0, 3, 2, 1];
    let cost = tour_cost_of(&tour, &nodes);
    assert_eq!(cost, 8 + 6 + 1);
    // exchanging the items at 1 and 3 gives 0, 1, 2, 3
    let after = try_swap(&mut tour, &nodes, 1, 3, cost);
    assert_eq!(tour, vec![0, 1, 2, 3]);
    assert_eq!(after, 8);
}

#[test]
fn a_swap_that_does_not_help_is_undone() {
    let nodes = items(&[0x00, 0x01, 0x03, 0xFF]);
    let mut tour = vec![0, 1, 2, 3];
    for a in 0..4 {
        for b in 0..4 {
            let after = try_swap(&mut tour, &nodes, a, b, 8);
            assert_eq!(after, 8);
            assert_eq!(tour, vec![0, 1, 2, 3]);
        }
    }
}

#[test]
fn a_swap_that_keeps_the_cost_is_undone() {
    // 0, 3 and 1, 2 are equal codes: exchanging them changes nothing
    let nodes = items(&[7, 9, 9, 7]);
    let mut tour = vec![0, 1, 2, 3];
    let cost = tour_cost_of(&tour, &nodes);
    assert_eq!(try_swap(&mut tour, &nodes, 0, 3, cost), cost);
    assert_eq!(tour, vec![0, 1, 2, 3]);
}

#[test]
fn the_chain_of_four_items_is_left_alone() {
    let hashes = [0x00u64, 0x01, 0x03, 0xFF];
    let nodes = items(&hashes);
    let tree = HammingMST::new(&nodes).unwrap();
    let mut tour = tree.dfs_preorder_iterative();
    assert_eq!(tour, vec![0, 1, 2, 3]);
    assert_eq!(tour_cost_of(&tour, &nodes), 8);
    for budget in [0u64, 1, 10, 1000] {
        iteratively_improve_tour(budget, 10_000, &mut tour, &nodes);
        assert_eq!(tour, vec![0, 1, 2, 3]);
        assert_eq!(tour_cost_of(&tour, &nodes), 8);
    }
}

#[test]
fn no_iterations_change_nothing() {
    let hashes = noise(30, 11);
    let nodes = items(&hashes);
    let start: Vec<usize> = (0..30).rev().collect();
    let mut tour = start.clone();
    iteratively_improve_tour(0, 10_000, &mut tour, &nodes);
    assert_eq!(tour, start);
}

#[test]
fn no_time_changes_nothing() {
    let hashes = noise(30, 12);
    let nodes = items(&hashes);
    let start: Vec<usize> = (0..30).collect();
    let mut tour = start.clone();
    iteratively_improve_tour(1_000_000, 0, &mut tour, &nodes);
    assert_eq!(tour, start);
}

#[test]
fn short_tours_are_left_alone() {
    let nodes = items(&[1, 2, 3]);
    let mut empty: Vec<usize> = vec![];
    iteratively_improve_tour(100, 100, &mut empty, &nodes);
    assert!(empty.is_empty());
    let mut one = vec![2];
    iteratively_improve_tour(100, 100, &mut one, &nodes);
    assert_eq!(one, vec![2]);
    let no_nodes = items(&[]);
    let mut none: Vec<usize> = vec![];
    iteratively_improve_tour(100, 100, &mut none, &no_nodes);
    assert!(none.is_empty());
}

#[test]
fn the_search_never_makes_a_tour_worse_and_keeps_its_items() {
    for seed in 1..12u64 {
        let n = 5 + (seed as usize * 7) % 40;
        let hashes = noise(n, seed * 977);
        let nodes = items(&hashes);
        let start: Vec<usize> = (0..n).collect();
        let mut tour = start.clone();
        let before = tour_cost_of(&tour, &nodes);
        iteratively_improve_tour(2_000, 5_000, &mut tour, &nodes);
        let after = tour_cost_of(&tour, &nodes);
        assert!(after <= before);
        let mut sorted = tour.clone();
        sorted.sort();
        assert_eq!(sorted, start);
    }
}

#[test]
fn the_search_finds_an_obvious_improvement() {
    // two groups of equal codes, interleaved: any tour that is not sorted
    // by group can be improved by one exchange, and the search draws positions
    // in range, or it could not get there
    let hashes = [0u64, u64::MAX, 0, u64::MAX, 0, u64::MAX];
    let nodes = items(&hashes);
    let mut tour: Vec<usize> = (0..6).collect();
    assert_eq!(tour_cost_of(&tour, &nodes), 5 * 64);
    iteratively_improve_tour(5_000, 10_000, &mut tour, &nodes);
    assert_eq!(tour_cost_of(&tour, &nodes), 64);
}

#[test]
fn the_search_stops_when_the_time_is_up() {
    let hashes = noise(200, 5);
    let nodes = items(&hashes);
    let mut tour: Vec<usize> = (0..200).collect();
    let start = std::time::Instant::now();
    iteratively_improve_tour(u64::MAX, 200, &mut tour, &nodes);
    assert!(start.elapsed().as_millis() >= 200);
    assert!(start.elapsed().as_millis() < 5_000);
}

#[test]
fn the_budget_is_left_while_neither_limit_is_reached() {
    assert!(budget_left(0, 1, 0, 1));
    assert!(budget_left(9, 10, 99, 100));
    assert!(!budget_left(10, 10, 99, 100));
    assert!(!budget_left(9, 10, 100, 100));
    assert!(!budget_left(0, 0, 0, 100));
    assert!(!budget_left(0, 100, 0, 0));
    assert!(!budget_left(u64::MAX, u64::MAX, u128::MAX, u128::MAX));
    assert!(budget_left(u64::MAX - 1, u64::MAX, u128::MAX - 1, u128::MAX));
}
