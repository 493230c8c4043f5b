//! Spanning trees over a set of fingerprints: what they are, what they weigh,
//! and a criterion under which a tree is a minimum spanning tree.
//!
//! A tree on the vertices `0..n` rooted at vertex 0 is given by its parent
//! sequence. Vertex 0 has no parent; entry 0 of the sequence is not read.

use crate::perceptual::{hamming, lemma_hamming_bound, lemma_hamming_symmetric};
use vstd::prelude::*;
use vstd::relations::injective_on;
use vstd::set_lib::{lemma_len_subset, lemma_map_size};

verus! {

/// Weight of the edge between vertices `a` and `b`.
pub open spec fn edge_weight(fp: Seq<u64>, a: int, b: int) -> nat {
    hamming(fp[a], fp[b])
}

/// `rank` numbers the vertices so that every vertex but 0 has its parent among
/// the vertices and ranked strictly below it. Such a numbering exists exactly
/// when following parents from any vertex ends in vertex 0.
pub open spec fn ranked(parent: Seq<usize>, rank: Seq<int>) -> bool {
    &&& rank.len() == parent.len()
    &&& forall|v: int|
        0 < v < parent.len() ==> (#[trigger] parent[v]) < parent.len() && 0 <= rank[parent[v] as int]
            < rank[v]
}

/// `parent` describes a spanning tree of the complete graph on `n` vertices,
/// rooted at vertex 0.
pub open spec fn is_spanning_tree(parent: Seq<usize>, n: nat) -> bool {
    &&& parent.len() == n
    &&& exists|rank: Seq<int>| ranked(parent, rank)
}

/// Sum of the weights of the tree edges that lead to the vertices `1..m`.
pub open spec fn tree_weight_upto(fp: Seq<u64>, parent: Seq<usize>, m: nat) -> nat
    decreases m,
{
    if m <= 1 {
        0
    } else {
        tree_weight_upto(fp, parent, (m - 1) as nat) + edge_weight(
            fp,
            m - 1,
            parent[m - 1] as int,
        )
    }
}

/// Total weight of the tree.
pub open spec fn tree_weight(fp: Seq<u64>, parent: Seq<usize>) -> nat {
    tree_weight_upto(fp, parent, parent.len())
}

/// `parent` is a spanning tree over the fingerprints `fp` and no spanning tree
/// over them weighs less.
pub open spec fn is_minimum_spanning_tree(fp: Seq<u64>, parent: Seq<usize>) -> bool {
    &&& is_spanning_tree(parent, fp.len())
    &&& forall|other: Seq<usize>| #[trigger]
        is_spanning_tree(other, fp.len()) ==> tree_weight(fp, parent) <= tree_weight(fp, other)
}

/// The chain that links every vertex to the one before it.
pub open spec fn chain(n: nat) -> Seq<usize> {
    Seq::new(
        n,
        |v: int|
            if v == 0 {
                0usize
            } else {
                (v - 1) as usize
            },
    )
}

/// Vertex `x` hangs on its parent by an edge lighter than `k`.
pub open spec fn is_light(fp: Seq<u64>, parent: Seq<usize>, k: nat, x: int) -> bool {
    x != 0 && edge_weight(fp, x, parent[x] as int) < k
}

/// The vertex reached from `x` by climbing tree edges lighter than `k` for as
/// long as there is one.
pub open spec fn light_root(fp: Seq<u64>, parent: Seq<usize>, rank: Seq<int>, k: nat, x: int) -> int
    decreases rank[x],
    when ranked(parent, rank) && 0 <= x < parent.len()
{
    if is_light(fp, parent, k, x) {
        light_root(fp, parent, rank, k, parent[x] as int)
    } else {
        x
    }
}

/// Whenever two vertices are closer than `k`, the tree joins them by edges
/// lighter than `k`.
pub open spec fn saturated(fp: Seq<u64>, parent: Seq<usize>, rank: Seq<int>) -> bool {
    forall|k: nat, x: int, y: int|
        0 <= x < parent.len() && 0 <= y < parent.len() && edge_weight(fp, x, y) < k ==> #[trigger]
        light_root(fp, parent, rank, k, x) == #[trigger] light_root(fp, parent, rank, k, y)
}

/// How many of the vertices `1..m` hang on an edge of weight `k` or more.
pub open spec fn heavy_upto(fp: Seq<u64>, parent: Seq<usize>, m: nat, k: nat) -> nat
    decreases m,
{
    if m <= 1 {
        0
    } else {
        heavy_upto(fp, parent, (m - 1) as nat, k) + if edge_weight(fp, m - 1, parent[m - 1] as int)
            >= k {
            1nat
        } else {
            0nat
        }
    }
}

/// The tree weight with every edge weight cut off at `cap`.
pub open spec fn capped_weight_upto(fp: Seq<u64>, parent: Seq<usize>, m: nat, cap: nat) -> nat
    decreases m,
{
    if m <= 1 {
        0
    } else {
        let w = edge_weight(fp, m - 1, parent[m - 1] as int);
        capped_weight_upto(fp, parent, (m - 1) as nat, cap) + if w < cap {
            w
        } else {
            cap
        }
    }
}

/// The vertices below `m` that do not hang on an edge lighter than `k`.
pub open spec fn heavy_set(fp: Seq<u64>, parent: Seq<usize>, m: nat, k: nat) -> Set<int> {
    Set::new(|x: int| 0 <= x < m && !is_light(fp, parent, k, x))
}

/// The weight of an edge does not depend on its direction.
pub proof fn lemma_edge_weight_symmetric(fp: Seq<u64>, a: int, b: int)
    ensures
        edge_weight(fp, a, b) == edge_weight(fp, b, a),
{
    lemma_hamming_symmetric(fp[a], fp[b]);
}

/// The light root of a vertex is a vertex that joined no later and hangs on
/// no light edge; a vertex is its own light root exactly when it hangs on none.
pub proof fn lemma_light_root_props(fp: Seq<u64>, parent: Seq<usize>, rank: Seq<int>, k: nat, x: int)
    requires
        ranked(parent, rank),
        0 <= x < parent.len(),
    ensures
        0 <= light_root(fp, parent, rank, k, x) < parent.len(),
        rank[light_root(fp, parent, rank, k, x)] <= rank[x],
        !is_light(fp, parent, k, light_root(fp, parent, rank, k, x)),
        light_root(fp, parent, rank, k, x) == x <==> !is_light(fp, parent, k, x),
    decreases rank[x],
{
    if is_light(fp, parent, k, x) {
        lemma_light_root_props(fp, parent, rank, k, parent[x] as int);
    }
}

/// In a saturated tree, climbing light edges of any other tree never leaves
/// the group of vertices that share a light root.
proof fn lemma_other_climb_keeps_light_root(
    fp: Seq<u64>,
    parent: Seq<usize>,
    rank: Seq<int>,
    other: Seq<usize>,
    other_rank: Seq<int>,
    k: nat,
    x: int,
)
    requires
        ranked(parent, rank),
        saturated(fp, parent, rank),
        ranked(other, other_rank),
        other.len() == parent.len(),
        0 <= x < parent.len(),
    ensures
        light_root(fp, parent, rank, k, light_root(fp, other, other_rank, k, x)) == light_root(
            fp,
            parent,
            rank,
            k,
            x,
        ),
    decreases other_rank[x],
{
    if is_light(fp, other, k, x) {
        lemma_other_climb_keeps_light_root(
            fp,
            parent,
            rank,
            other,
            other_rank,
            k,
            other[x] as int,
        );
    }
}

proof fn lemma_heavy_set_len(fp: Seq<u64>, parent: Seq<usize>, m: nat, k: nat)
    requires
        m >= 1,
    ensures
        heavy_set(fp, parent, m, k).finite(),
        heavy_set(fp, parent, m, k).len() == 1 + heavy_upto(fp, parent, m, k),
    decreases m,
{
    if m == 1 {
        assert(heavy_set(fp, parent, m, k) =~= Set::<int>::empty().insert(0));
    } else {
        let prev = heavy_set(fp, parent, (m - 1) as nat, k);
        lemma_heavy_set_len(fp, parent, (m - 1) as nat, k);
        if is_light(fp, parent, k, m - 1) {
            assert(heavy_set(fp, parent, m, k) =~= prev);
        } else {
            assert(heavy_set(fp, parent, m, k) =~= prev.insert(m - 1));
        }
    }
}

/// A saturated tree has, for every `k`, no more edges of weight `k` or more
/// than any other spanning tree.
proof fn lemma_saturated_has_fewest_heavy(
    fp: Seq<u64>,
    parent: Seq<usize>,
    rank: Seq<int>,
    other: Seq<usize>,
    other_rank: Seq<int>,
    k: nat,
)
    requires
        parent.len() >= 1,
        ranked(parent, rank),
        saturated(fp, parent, rank),
        ranked(other, other_rank),
        other.len() == parent.len(),
    ensures
        heavy_upto(fp, parent, parent.len(), k) <= heavy_upto(fp, other, parent.len(), k),
{
    let n = parent.len();
    let mine = heavy_set(fp, parent, n, k);
    let theirs = heavy_set(fp, other, n, k);
    let climb = |x: int| light_root(fp, other, other_rank, k, x);
    lemma_heavy_set_len(fp, parent, n, k);
    lemma_heavy_set_len(fp, other, n, k);
    assert forall|x1: int, x2: int|
        mine.contains(x1) && mine.contains(x2) && #[trigger] climb(x1) == #[trigger] climb(
            x2,
        ) implies x1 == x2 by {
        lemma_other_climb_keeps_light_root(fp, parent, rank, other, other_rank, k, x1);
        lemma_other_climb_keeps_light_root(fp, parent, rank, other, other_rank, k, x2);
        lemma_light_root_props(fp, parent, rank, k, x1);
        lemma_light_root_props(fp, parent, rank, k, x2);
    }
    assert(injective_on(climb, mine));
    let image = mine.map(climb);
    lemma_map_size(mine, image, climb);
    assert forall|y: int| image.contains(y) implies theirs.contains(y) by {
        let x = choose|x: int| mine.contains(x) && y == climb(x);
        lemma_light_root_props(fp, other, other_rank, k, x);
    }
    lemma_len_subset(image, theirs);
}

proof fn lemma_capped_step(fp: Seq<u64>, parent: Seq<usize>, m: nat, cap: nat)
    requires
        cap >= 1,
    ensures
        capped_weight_upto(fp, parent, m, cap) == capped_weight_upto(
            fp,
            parent,
            m,
            (cap - 1) as nat,
        ) + heavy_upto(fp, parent, m, cap),
    decreases m,
{
    if m > 1 {
        lemma_capped_step(fp, parent, (m - 1) as nat, cap);
    }
}

proof fn lemma_capped_zero(fp: Seq<u64>, parent: Seq<usize>, m: nat)
    ensures
        capped_weight_upto(fp, parent, m, 0) == 0,
    decreases m,
{
    if m > 1 {
        lemma_capped_zero(fp, parent, (m - 1) as nat);
    }
}

proof fn lemma_capped_full(fp: Seq<u64>, parent: Seq<usize>, m: nat)
    ensures
        capped_weight_upto(fp, parent, m, 64) == tree_weight_upto(fp, parent, m),
    decreases m,
{
    if m > 1 {
        lemma_capped_full(fp, parent, (m - 1) as nat);
        lemma_hamming_bound(fp[m - 1], fp[parent[m - 1] as int]);
    }
}

proof fn lemma_saturated_capped_le(
    fp: Seq<u64>,
    parent: Seq<usize>,
    rank: Seq<int>,
    other: Seq<usize>,
    other_rank: Seq<int>,
    cap: nat,
)
    requires
        parent.len() >= 1,
        ranked(parent, rank),
        saturated(fp, parent, rank),
        ranked(other, other_rank),
        other.len() == parent.len(),
    ensures
        capped_weight_upto(fp, parent, parent.len(), cap) <= capped_weight_upto(
            fp,
            other,
            parent.len(),
            cap,
        ),
    decreases cap,
{
    let n = parent.len();
    if cap == 0 {
        lemma_capped_zero(fp, parent, n);
        lemma_capped_zero(fp, other, n);
    } else {
        lemma_saturated_capped_le(fp, parent, rank, other, other_rank, (cap - 1) as nat);
        lemma_saturated_has_fewest_heavy(fp, parent, rank, other, other_rank, cap);
        lemma_capped_step(fp, parent, n, cap);
        lemma_capped_step(fp, other, n, cap);
    }
}

/// A saturated tree is a minimum spanning tree.
pub proof fn lemma_saturated_is_minimum(fp: Seq<u64>, parent: Seq<usize>, rank: Seq<int>)
    requires
        parent.len() == fp.len(),
        ranked(parent, rank),
        saturated(fp, parent, rank),
    ensures
        is_minimum_spanning_tree(fp, parent),
{
    let n = parent.len();
    assert forall|other: Seq<usize>| #[trigger] is_spanning_tree(other, n) implies tree_weight(
        fp,
        parent,
    ) <= tree_weight(fp, other) by {
        if n >= 1 {
            let other_rank = choose|r: Seq<int>| ranked(other, r);
            lemma_saturated_capped_le(fp, parent, rank, other, other_rank, 64);
            lemma_capped_full(fp, parent, n);
            lemma_capped_full(fp, other, n);
        }
    }
}

/// The chain through the vertices in input order is a spanning tree.
pub proof fn lemma_chain_is_spanning_tree(n: nat)
    requires
        n <= usize::MAX,
    ensures
        is_spanning_tree(chain(n), n),
{
    let rank = Seq::new(n, |v: int| v);
    assert(ranked(chain(n), rank));
}

/// Two minimum spanning trees over the same fingerprints weigh the same.
pub proof fn lemma_minimum_weight_unique(fp: Seq<u64>, a: Seq<usize>, b: Seq<usize>)
    requires
        is_minimum_spanning_tree(fp, a),
        is_minimum_spanning_tree(fp, b),
    ensures
        tree_weight(fp, a) == tree_weight(fp, b),
{
}

/// A minimum spanning tree weighs no more than the chain through the vertices
/// in input order.
pub proof fn lemma_minimum_at_most_chain(fp: Seq<u64>, parent: Seq<usize>)
    requires
        is_minimum_spanning_tree(fp, parent),
        fp.len() <= usize::MAX,
    ensures
        tree_weight(fp, parent) <= tree_weight(fp, chain(fp.len())),
{
    lemma_chain_is_spanning_tree(fp.len());
}

} // verus!
