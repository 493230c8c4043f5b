//! Building a minimum spanning tree by taking the edges in ascending order
//! of weight and keeping those that join two different sets of a partition.

use crate::disjoint::{all_one_set, merged_sets, DisjointSets};
use crate::graph::TreeModel;
use crate::perceptual::{hamming_distance, lemma_hamming_bound};
use crate::rooted::{
    child_lists, lemma_count_set_all, lemma_partial_done, lemma_partial_extend,
    lemma_partial_facts, lemma_partial_start, partial_tree, start_in_tree, start_parent,
    start_pos, start_slot,
};
use crate::spanning::{
    edge_weight, is_light, lemma_edge_weight_symmetric, light_root, ranked, saturated,
};
use vstd::prelude::*;
use vstd::set_lib::{lemma_int_range, lemma_map_size, lemma_subset_equality, set_int_range};

verus! {

/// An edge between two vertices.
pub type Edge = (usize, usize);

/// Largest weight an edge can have.
pub const MAX_WEIGHT: usize = 64;

/// Weight of an edge.
pub open spec fn weight_of(fp: Seq<u64>, e: Edge) -> nat {
    edge_weight(fp, e.0 as int, e.1 as int)
}

/// The set `s` holds both ends or neither end of every one of `edges` that
/// is lighter than `k`.
pub open spec fn closed_below(fp: Seq<u64>, s: Set<int>, edges: Seq<Edge>, k: nat) -> bool {
    forall|j: int|
        0 <= j < edges.len() && weight_of(fp, #[trigger] edges[j]) < k ==> (s.contains(
            edges[j].0 as int,
        ) <==> s.contains(edges[j].1 as int))
}

/// The vertices `x` and `y` are joined by those of `edges` that are lighter
/// than `k`: no set of vertices that these edges do not leave tells them apart.
pub open spec fn joined_below(fp: Seq<u64>, edges: Seq<Edge>, k: nat, x: int, y: int) -> bool {
    forall|s: Set<int>| #[trigger] closed_below(fp, s, edges, k) ==> (s.contains(x) <==> s.contains(y))
}

/// Whenever two vertices are closer than `k`, the edges lighter than `k` join them.
pub open spec fn joins_near(fp: Seq<u64>, edges: Seq<Edge>) -> bool {
    forall|k: nat, x: int, y: int|
        0 <= x < fp.len() && 0 <= y < fp.len() && edge_weight(fp, x, y) < k
            ==> #[trigger] joined_below(fp, edges, k, x, y)
}

/// Any two vertices closer than `w` are in one set of the partition.
pub open spec fn settled(fp: Seq<u64>, repr: Seq<usize>, w: nat) -> bool {
    forall|x: int, y: int|
        0 <= x < fp.len() && 0 <= y < fp.len() && edge_weight(fp, x, y) < w ==> #[trigger] repr[x]
            == #[trigger] repr[y]
}

/// The ends of the first `i` edges of a bucket are in one set each.
pub open spec fn bucket_settled(repr: Seq<usize>, bucket: Seq<Edge>, i: int) -> bool {
    forall|j: int| 0 <= j < i ==> repr[(#[trigger] bucket[j]).0 as int] == repr[bucket[j].1 as int]
}

/// The state of the forest while edges are taken in ascending order: `edges`
/// are the edges kept so far, all lighter than `w_edges`, each with both ends
/// in one set of the partition; vertices in one set are joined by them; and
/// up to `w_done`, vertices closer than a weight are joined by the kept edges
/// lighter than it.
#[verifier::opaque]
pub open spec fn forest_state(
    fp: Seq<u64>,
    repr: Seq<usize>,
    count: nat,
    edges: Seq<Edge>,
    w_edges: nat,
    w_done: nat,
) -> bool {
    let n = fp.len();
    &&& repr.len() == n
    &&& edges.len() + count == n
    &&& forall|j: int|
        0 <= j < edges.len() ==> (#[trigger] edges[j]).0 < n && edges[j].1 < n && weight_of(
            fp,
            edges[j],
        ) < w_edges && repr[edges[j].0 as int] == repr[edges[j].1 as int]
    &&& forall|x: int, y: int|
        0 <= x < n && 0 <= y < n && #[trigger] repr[x] == #[trigger] repr[y] ==> joined_below(
            fp,
            edges,
            w_edges,
            x,
            y,
        )
    &&& forall|k: nat, x: int, y: int|
        k <= w_done && 0 <= x < n && 0 <= y < n && edge_weight(fp, x, y) < k
            ==> #[trigger] joined_below(fp, edges, k, x, y)
}

proof fn lemma_joined_more(
    fp: Seq<u64>,
    edges: Seq<Edge>,
    k: nat,
    more: Seq<Edge>,
    k2: nat,
    x: int,
    y: int,
)
    requires
        joined_below(fp, edges, k, x, y),
        edges.len() <= more.len(),
        forall|j: int| 0 <= j < edges.len() ==> more[j] == edges[j],
        k <= k2,
    ensures
        joined_below(fp, more, k2, x, y),
{
    assert forall|s: Set<int>| #[trigger] closed_below(fp, s, more, k2) implies (s.contains(x)
        <==> s.contains(y)) by {
        assert forall|j: int|
            0 <= j < edges.len() && weight_of(fp, #[trigger] edges[j]) < k implies (s.contains(
            edges[j].0 as int,
        ) <==> s.contains(edges[j].1 as int)) by {
            assert(more[j] == edges[j]);
        }
        assert(closed_below(fp, s, edges, k));
    }
}

proof fn lemma_joined_chain(fp: Seq<u64>, edges: Seq<Edge>, k: nat, x: int, y: int, z: int)
    requires
        joined_below(fp, edges, k, x, y),
        joined_below(fp, edges, k, y, z),
    ensures
        joined_below(fp, edges, k, x, z),
        joined_below(fp, edges, k, y, x),
        joined_below(fp, edges, k, x, x),
{
}

/// No edges kept and every vertex in a set of its own: where the forest starts.
proof fn lemma_forest_start(fp: Seq<u64>, repr: Seq<usize>)
    requires
        repr.len() == fp.len(),
        forall|x: int| 0 <= x < fp.len() ==> #[trigger] repr[x] == x,
    ensures
        forest_state(fp, repr, fp.len(), Seq::<Edge>::empty(), 0, 0),
{
    reveal(forest_state);
}

/// Edges lighter than `w` are lighter than `w + 1`.
proof fn lemma_forest_raise(fp: Seq<u64>, repr: Seq<usize>, count: nat, edges: Seq<Edge>, w: nat)
    requires
        forest_state(fp, repr, count, edges, w, w),
    ensures
        forest_state(fp, repr, count, edges, w + 1, w),
{
    reveal(forest_state);
    let n = fp.len();
    assert forall|x: int, y: int|
        0 <= x < n && 0 <= y < n && #[trigger] repr[x] == #[trigger] repr[y] implies joined_below(
        fp,
        edges,
        w + 1,
        x,
        y,
    ) by {
        lemma_joined_more(fp, edges, w, edges, w + 1, x, y);
    }
}

/// Keeping an edge of weight `w` that merges the sets of its ends.
proof fn lemma_forest_accept(
    fp: Seq<u64>,
    before: Seq<usize>,
    after: Seq<usize>,
    count: nat,
    edges: Seq<Edge>,
    w: nat,
    e: Edge,
)
    requires
        forest_state(fp, before, count, edges, w + 1, w),
        count >= 1,
        e.0 < fp.len(),
        e.1 < fp.len(),
        weight_of(fp, e) == w,
        merged_sets(before, after, e.0 as int, e.1 as int),
    ensures
        forest_state(fp, after, (count - 1) as nat, edges.push(e), w + 1, w),
{
    reveal(forest_state);
    let n = fp.len();
    let more = edges.push(e);
    let a = e.0 as int;
    let b = e.1 as int;
    assert(joined_below(fp, more, w + 1, a, b)) by {
        assert forall|s: Set<int>| #[trigger] closed_below(fp, s, more, w + 1) implies (s.contains(
            a,
        ) <==> s.contains(b)) by {
            assert(more[edges.len() as int] == e);
        }
    }
    lemma_joined_chain(fp, more, w + 1, a, b, b);
    assert forall|j: int| 0 <= j < more.len() implies (#[trigger] more[j]).0 < n && more[j].1 < n
        && weight_of(fp, more[j]) < w + 1 && after[more[j].0 as int] == after[more[j].1 as int] by {
        if j < edges.len() {
            assert(more[j] == edges[j]);
            assert(before[edges[j].0 as int] == before[edges[j].1 as int]);
        }
    }
    assert forall|x: int, y: int|
        0 <= x < n && 0 <= y < n && #[trigger] after[x] == #[trigger] after[y] implies joined_below(
        fp,
        more,
        w + 1,
        x,
        y,
    ) by {
        let ra = before[a];
        let rb = before[b];
        let x_moved = before[x] == ra || before[x] == rb;
        let y_moved = before[y] == ra || before[y] == rb;
        // a vertex of one of the merged sets was with a or with b
        let near_x = if before[x] == ra {
            a
        } else {
            b
        };
        let near_y = if before[y] == ra {
            a
        } else {
            b
        };
        if x_moved && y_moved {
            lemma_joined_more(fp, edges, w + 1, more, w + 1, x, near_x);
            lemma_joined_more(fp, edges, w + 1, more, w + 1, y, near_y);
            lemma_joined_chain(fp, more, w + 1, y, near_y, near_y);
            if near_x == near_y {
                lemma_joined_chain(fp, more, w + 1, x, near_x, y);
            } else if near_x == a {
                lemma_joined_chain(fp, more, w + 1, x, a, b);
                lemma_joined_chain(fp, more, w + 1, x, b, y);
            } else {
                lemma_joined_chain(fp, more, w + 1, x, b, a);
                lemma_joined_chain(fp, more, w + 1, x, a, y);
            }
        } else {
            assert(before[x] == before[y]);
            lemma_joined_more(fp, edges, w + 1, more, w + 1, x, y);
        }
    }
    assert forall|k: nat, x: int, y: int|
        k <= w && 0 <= x < n && 0 <= y < n && edge_weight(fp, x, y)
            < k implies #[trigger] joined_below(fp, more, k, x, y) by {
        lemma_joined_more(fp, edges, k, more, k, x, y);
    }
}

/// Two vertices are in one set of the partition exactly when the kept edges
/// join them.
pub proof fn lemma_sets_are_components(
    fp: Seq<u64>,
    repr: Seq<usize>,
    count: nat,
    edges: Seq<Edge>,
    w_edges: nat,
    w_done: nat,
    x: int,
    y: int,
)
    requires
        forest_state(fp, repr, count, edges, w_edges, w_done),
        0 <= x < fp.len(),
        0 <= y < fp.len(),
    ensures
        repr[x] == repr[y] <==> joined_below(fp, edges, w_edges, x, y),
{
    reveal(forest_state);
    let n = fp.len();
    if joined_below(fp, edges, w_edges, x, y) {
        let set_of_x = Set::new(|z: int| 0 <= z < n && repr[z] == repr[x]);
        assert(closed_below(fp, set_of_x, edges, w_edges));
        assert(set_of_x.contains(x));
        assert(set_of_x.contains(y));
    }
}

/// Once all vertices closer than `w + 1` are in one set each, the kept edges
/// lighter than `w + 1` join them.
proof fn lemma_forest_bucket_done(
    fp: Seq<u64>,
    repr: Seq<usize>,
    count: nat,
    edges: Seq<Edge>,
    w: nat,
)
    requires
        forest_state(fp, repr, count, edges, w + 1, w),
        settled(fp, repr, w + 1),
    ensures
        forest_state(fp, repr, count, edges, w + 1, w + 1),
{
    reveal(forest_state);
    let n = fp.len();
    assert forall|k: nat, x: int, y: int|
        k <= w + 1 && 0 <= x < n && 0 <= y < n && edge_weight(fp, x, y)
            < k implies #[trigger] joined_below(fp, edges, k, x, y) by {
        if k == w + 1 {
            assert(repr[x] == repr[y]);
        }
    }
}

/// With all vertices in one set, the kept edges join any two vertices that
/// are closer than a weight by edges lighter than it.
proof fn lemma_forest_finish(
    fp: Seq<u64>,
    repr: Seq<usize>,
    count: nat,
    edges: Seq<Edge>,
    w_edges: nat,
    w_done: nat,
)
    requires
        forest_state(fp, repr, count, edges, w_edges, w_done),
        w_edges <= w_done + 1,
        all_one_set(repr),
    ensures
        joins_near(fp, edges),
        forall|j: int|
            0 <= j < edges.len() ==> (#[trigger] edges[j]).0 < fp.len() && edges[j].1 < fp.len(),
{
    reveal(forest_state);
    let n = fp.len();
    assert forall|k: nat, x: int, y: int|
        0 <= x < n && 0 <= y < n && edge_weight(fp, x, y) < k implies #[trigger] joined_below(
        fp,
        edges,
        k,
        x,
        y,
    ) by {
        if k > w_done {
            assert(repr[x] == repr[y]);
            lemma_joined_more(fp, edges, w_edges, edges, k, x, y);
        }
    }
}

/// What the loop reads off the state of the forest.
proof fn lemma_forest_facts(
    fp: Seq<u64>,
    repr: Seq<usize>,
    count: nat,
    edges: Seq<Edge>,
    w_edges: nat,
    w_done: nat,
)
    requires
        forest_state(fp, repr, count, edges, w_edges, w_done),
    ensures
        edges.len() + count == fp.len(),
        repr.len() == fp.len(),
{
    reveal(forest_state);
}

/// Merging two sets keeps together what was together.
proof fn lemma_merge_keeps_settled(
    fp: Seq<u64>,
    before: Seq<usize>,
    after: Seq<usize>,
    a: int,
    b: int,
    w: nat,
    bucket: Seq<Edge>,
    i: int,
)
    requires
        before.len() == fp.len(),
        0 <= a < fp.len(),
        0 <= b < fp.len(),
        merged_sets(before, after, a, b),
        settled(fp, before, w),
        bucket_settled(before, bucket, i),
        0 <= i <= bucket.len(),
        forall|j: int| 0 <= j < bucket.len() ==> (#[trigger] bucket[j]).0 < fp.len() && bucket[j].1 < fp.len(),
    ensures
        settled(fp, after, w),
        bucket_settled(after, bucket, i),
        after[a] == after[b],
{
    assert forall|x: int, y: int|
        0 <= x < fp.len() && 0 <= y < fp.len() && edge_weight(fp, x, y) < w implies #[trigger] after[x]
        == #[trigger] after[y] by {
        assert(before[x] == before[y]);
    }
    assert forall|j: int| 0 <= j < i implies after[(#[trigger] bucket[j]).0 as int] == after[bucket[j].1 as int] by {
        assert(before[bucket[j].0 as int] == before[bucket[j].1 as int]);
    }
}

/// The pair `e` comes before the pair `f` in the enumeration of all pairs.
pub open spec fn pair_before(e: Edge, f: Edge) -> bool {
    e.0 < f.0 || (e.0 == f.0 && e.1 < f.1)
}

/// The pairs of vertices that come before the pair `next` in the enumeration
/// sorted into buckets by weight: bucket `w` holds those at distance `w`,
/// lower vertex first, every pair once and in the order of enumeration.
pub open spec fn bucketed_before(fp: Seq<u64>, buckets: Seq<Seq<Edge>>, next: Edge) -> bool {
    &&& buckets.len() == MAX_WEIGHT + 1
    &&& forall|w: int, i: int|
        0 <= w < buckets.len() && 0 <= i < buckets[w].len() ==> {
            let e = #[trigger] buckets[w][i];
            e.0 < e.1 && e.1 < fp.len() && weight_of(fp, e) == w && pair_before(e, next)
        }
    &&& forall|w: int, i: int, j: int|
        0 <= w < buckets.len() && 0 <= i < j < buckets[w].len() ==> pair_before(
            #[trigger] buckets[w][i],
            #[trigger] buckets[w][j],
        )
    &&& forall|a: int, b: int|
        0 <= a < b < fp.len() && pair_before((a as usize, b as usize), next)
            ==> buckets[#[trigger] edge_weight(fp, a, b) as int].contains((a as usize, b as usize))
}

/// All pairs of vertices sorted into buckets by weight: bucket `w` holds the
/// pairs at distance `w`, lower vertex first, every pair once and in the
/// order of enumeration.
pub open spec fn is_bucketing(fp: Seq<u64>, buckets: Seq<Seq<Edge>>) -> bool {
    &&& buckets.len() == MAX_WEIGHT + 1
    &&& forall|w: int, i: int|
        0 <= w < buckets.len() && 0 <= i < buckets[w].len() ==> {
            let e = #[trigger] buckets[w][i];
            e.0 < e.1 && e.1 < fp.len() && weight_of(fp, e) == w
        }
    &&& forall|w: int, i: int, j: int|
        0 <= w < buckets.len() && 0 <= i < j < buckets[w].len() ==> pair_before(
            #[trigger] buckets[w][i],
            #[trigger] buckets[w][j],
        )
    &&& forall|a: int, b: int|
        0 <= a < b < fp.len() ==> buckets[#[trigger] edge_weight(fp, a, b) as int].contains(
            (a as usize, b as usize),
        )
}

/// The buckets as sequences.
pub open spec fn bucket_lists(buckets: Seq<Vec<Edge>>) -> Seq<Seq<Edge>> {
    Seq::new(buckets.len(), |w: int| buckets[w]@)
}

/// Putting the next pair of the enumeration at the end of its bucket.
proof fn lemma_bucket_push(fp: Seq<u64>, buckets: Seq<Seq<Edge>>, a: usize, b: usize)
    requires
        bucketed_before(fp, buckets, (a, b)),
        a < b < fp.len(),
        fp.len() <= usize::MAX,
    ensures
        edge_weight(fp, a as int, b as int) <= MAX_WEIGHT,
        bucketed_before(
            fp,
            buckets.update(
                edge_weight(fp, a as int, b as int) as int,
                buckets[edge_weight(fp, a as int, b as int) as int].push((a, b)),
            ),
            (a, (b + 1) as usize),
        ),
{
    let d = edge_weight(fp, a as int, b as int) as int;
    let next = (a, (b + 1) as usize);
    let more = buckets.update(d, buckets[d].push((a, b)));
    lemma_hamming_bound(fp[a as int], fp[b as int]);
    assert forall|w: int, i: int| 0 <= w < more.len() && 0 <= i < more[w].len() implies {
        let e = #[trigger] more[w][i];
        e.0 < e.1 && e.1 < fp.len() && weight_of(fp, e) == w && pair_before(e, next)
    } by {
        if !(w == d && i == buckets[d].len()) {
            assert(more[w][i] == buckets[w][i]);
        }
    }
    assert forall|w: int, i: int, j: int|
        0 <= w < more.len() && 0 <= i < j < more[w].len() implies pair_before(
        #[trigger] more[w][i],
        #[trigger] more[w][j],
    ) by {
        assert(more[w][i] == buckets[w][i]);
        if !(w == d && j == buckets[d].len()) {
            assert(more[w][j] == buckets[w][j]);
        }
    }
    assert forall|x: int, y: int|
        0 <= x < y < fp.len() && pair_before(
            (x as usize, y as usize),
            next,
        ) implies more[#[trigger] edge_weight(fp, x, y) as int].contains(
        (x as usize, y as usize),
    ) by {
        let w = edge_weight(fp, x, y) as int;
        lemma_hamming_bound(fp[x], fp[y]);
        if x == a && y == b {
            assert(more[d][buckets[d].len() as int] == (a, b));
        } else {
            assert(pair_before((x as usize, y as usize), (a, b)));
            let i = choose|i: int|
                0 <= i < buckets[w].len() && buckets[w][i] == (x as usize, y as usize);
            assert(more[w][i] == (x as usize, y as usize));
        }
    }
}

/// Computes the distance of every pair of vertices once and sorts the pairs
/// by it. Within a bucket the pairs stand in the order of enumeration.
pub fn bucket_edges(fps: &Vec<u64>) -> (buckets: Vec<Vec<Edge>>)
    ensures
        is_bucketing(fps@, bucket_lists(buckets@)),
{
    let n = fps.len();
    let mut buckets: Vec<Vec<Edge>> = Vec::new();
    let mut w: usize = 0;
    while w <= MAX_WEIGHT
        invariant
            w <= MAX_WEIGHT + 1,
            buckets@.len() == w,
            forall|v: int| 0 <= v < w ==> (#[trigger] buckets@[v])@.len() == 0,
        decreases MAX_WEIGHT + 1 - w,
    {
        buckets.push(Vec::new());
        w = w + 1;
    }
    let mut a: usize = 0;
    while a < n
        invariant
            n == fps@.len(),
            a <= n,
            bucketed_before(fps@, bucket_lists(buckets@), (a, 0)),
        decreases n - a,
    {
        let mut b: usize = a + 1;
        while b < n
            invariant
                n == fps@.len(),
                a < b <= n,
                bucketed_before(fps@, bucket_lists(buckets@), (a, b)),
            decreases n - b,
        {
            let d = hamming_distance(fps[a], fps[b]) as usize;
            let ghost before = bucket_lists(buckets@);
            proof {
                lemma_bucket_push(fps@, before, a, b);
            }
            buckets[d].push((a, b));
            assert(bucket_lists(buckets@) =~= before.update(
                d as int,
                before[d as int].push((a, b)),
            ));
            b = b + 1;
        }
        a = a + 1;
    }
    buckets
}

/// Once the ends of every pair at distance `w` are in one set each, any two
/// vertices closer than `w + 1` are.
proof fn lemma_bucket_complete(
    fp: Seq<u64>,
    repr: Seq<usize>,
    buckets: Seq<Seq<Edge>>,
    w: nat,
)
    requires
        is_bucketing(fp, buckets),
        fp.len() <= usize::MAX,
        w <= MAX_WEIGHT,
        settled(fp, repr, w),
        bucket_settled(repr, buckets[w as int], buckets[w as int].len() as int),
    ensures
        settled(fp, repr, w + 1),
{
    let bucket = buckets[w as int];
    assert forall|x: int, y: int|
        0 <= x < fp.len() && 0 <= y < fp.len() && edge_weight(fp, x, y) < w + 1 implies #[trigger] repr[x]
        == #[trigger] repr[y] by {
        if edge_weight(fp, x, y) == w && x != y {
            lemma_edge_weight_symmetric(fp, x, y);
            let lo = if x < y {
                x
            } else {
                y
            };
            let hi = if x < y {
                y
            } else {
                x
            };
            assert(edge_weight(fp, lo, hi) == w);
            assert(buckets[edge_weight(fp, lo, hi) as int].contains((lo as usize, hi as usize)));
            let j = choose|j: int| 0 <= j < bucket.len() && bucket[j] == (lo as usize, hi as usize);
            assert(repr[bucket[j].0 as int] == repr[bucket[j].1 as int]);
        }
    }
}

/// Each neighbour of a vertex is a vertex, and `via` names an edge that
/// joins the two.
pub open spec fn neighbours_linked(
    n: nat,
    edges: Seq<Edge>,
    adj: Seq<Seq<usize>>,
    via: Seq<Seq<int>>,
) -> bool {
    forall|u: int, i: int|
        0 <= u < n && 0 <= i < adj[u].len() ==> (#[trigger] adj[u][i]) < n && 0 <= via[u][i]
            < edges.len() && (edges[via[u][i]] == (u as usize, adj[u][i]) || edges[via[u][i]] == (
            adj[u][i],
            u as usize,
        ))
}

/// The ends of each edge are neighbours of one another.
pub open spec fn edges_listed(edges: Seq<Edge>, adj: Seq<Seq<usize>>) -> bool {
    forall|j: int|
        0 <= j < edges.len() ==> adj[(#[trigger] edges[j]).0 as int].contains(edges[j].1)
            && adj[edges[j].1 as int].contains(edges[j].0)
}

/// The neighbours of each vertex under `edges`, and for each neighbour the
/// edge that makes it one.
#[verifier::opaque]
pub open spec fn adjacency_of(
    n: nat,
    edges: Seq<Edge>,
    adj: Seq<Seq<usize>>,
    via: Seq<Seq<int>>,
) -> bool {
    &&& adj.len() == n
    &&& via.len() == n
    &&& forall|u: int| 0 <= u < n ==> (#[trigger] via[u]).len() == adj[u].len()
    &&& neighbours_linked(n, edges, adj, via)
    &&& edges_listed(edges, adj)
}

proof fn lemma_adjacency_start(n: nat, adj: Seq<Seq<usize>>)
    requires
        adj.len() == n,
        forall|u: int| 0 <= u < n ==> (#[trigger] adj[u]).len() == 0,
    ensures
        adjacency_of(n, Seq::<Edge>::empty(), adj, Seq::new(n, |u: int| Seq::<int>::empty())),
{
    reveal(adjacency_of);
}

/// The adjacency after one more edge between two different vertices.
proof fn lemma_adjacency_push(
    n: nat,
    edges: Seq<Edge>,
    adj: Seq<Seq<usize>>,
    via: Seq<Seq<int>>,
    e: Edge,
)
    requires
        adjacency_of(n, edges, adj, via),
        n <= usize::MAX,
        e.0 < n,
        e.1 < n,
        e.0 != e.1,
        forall|j: int| 0 <= j < edges.len() ==> (#[trigger] edges[j]).0 < n && edges[j].1 < n,
    ensures
        adjacency_of(
            n,
            edges.push(e),
            adj.update(e.0 as int, adj[e.0 as int].push(e.1)).update(
                e.1 as int,
                adj[e.1 as int].push(e.0),
            ),
            via.update(e.0 as int, via[e.0 as int].push(edges.len() as int)).update(
                e.1 as int,
                via[e.1 as int].push(edges.len() as int),
            ),
        ),
{
    reveal(adjacency_of);
    let a = e.0 as int;
    let b = e.1 as int;
    let edges2 = edges.push(e);
    let adj2 = adj.update(a, adj[a].push(e.1)).update(b, adj[b].push(e.0));
    let via2 = via.update(a, via[a].push(edges.len() as int)).update(
        b,
        via[b].push(edges.len() as int),
    );
    assert forall|u: int| 0 <= u < n implies (#[trigger] via2[u]).len() == adj2[u].len() by {
        assert(via[u].len() == adj[u].len());
    }
    assert forall|u: int, i: int| 0 <= u < n && 0 <= i < adj2[u].len() implies (#[trigger] adj2[u][i])
        < n && 0 <= via2[u][i] < edges2.len() && (edges2[via2[u][i]] == (u as usize, adj2[u][i])
        || edges2[via2[u][i]] == (adj2[u][i], u as usize)) by {
        if (u == a || u == b) && i == adj[u].len() {
            assert(via2[u][i] == edges.len());
            assert(edges2[edges.len() as int] == e);
        } else {
            let j = via[u][i];
            assert(adj[u][i] < n);
            assert(adj2[u][i] == adj[u][i]);
            assert(via2[u][i] == j);
            assert(edges2[j] == edges[j]);
        }
    }
    assert forall|j: int| 0 <= j < edges2.len() implies adj2[(#[trigger] edges2[j]).0 as int].contains(
        edges2[j].1,
    ) && adj2[edges2[j].1 as int].contains(edges2[j].0) by {
        if j < edges.len() {
            let x = edges[j].0 as int;
            let y = edges[j].1 as int;
            let i = choose|i: int| 0 <= i < adj[x].len() && adj[x][i] == edges[j].1;
            assert(adj2[x][i] == edges[j].1);
            let i2 = choose|i: int| 0 <= i < adj[y].len() && adj[y][i] == edges[j].0;
            assert(adj2[y][i2] == edges[j].0);
        } else {
            assert(adj2[a][adj[a].len() as int] == e.1);
            assert(adj2[b][adj[b].len() as int] == e.0);
        }
    }
    assert(neighbours_linked(n, edges2, adj2, via2));
    assert(edges_listed(edges2, adj2));
}

/// The edge `e` is kept before the edge `f` where both are kept: it is
/// lighter, or as heavy and earlier in the enumeration of all pairs.
pub open spec fn kept_before(fp: Seq<u64>, e: Edge, f: Edge) -> bool {
    weight_of(fp, e) < weight_of(fp, f) || (weight_of(fp, e) == weight_of(fp, f) && pair_before(
        e,
        f,
    ))
}

/// The edges stand in the order in which they were kept, each with its
/// lower vertex first.
pub open spec fn edges_ascending(fp: Seq<u64>, edges: Seq<Edge>) -> bool {
    &&& forall|j: int| 0 <= j < edges.len() ==> (#[trigger] edges[j]).0 < edges[j].1
    &&& forall|i: int, j: int|
        0 <= i < j < edges.len() ==> kept_before(fp, #[trigger] edges[i], #[trigger] edges[j])
}

/// The edges kept when the first `i` pairs of the bucket of weight `w` were
/// looked at: they are in ascending order, and each is lighter than `w` or
/// one of these pairs.
pub open spec fn kept_upto(fp: Seq<u64>, edges: Seq<Edge>, w: nat, bucket: Seq<Edge>, i: int) -> bool {
    &&& edges_ascending(fp, edges)
    &&& forall|j: int|
        0 <= j < edges.len() ==> weight_of(fp, #[trigger] edges[j]) < w || exists|k: int|
            0 <= k < i && #[trigger] bucket[k] == edges[j]
}

/// Keeping the next pair of the bucket keeps the order.
proof fn lemma_kept_push(fp: Seq<u64>, edges: Seq<Edge>, buckets: Seq<Seq<Edge>>, w: nat, i: int)
    requires
        is_bucketing(fp, buckets),
        w <= MAX_WEIGHT,
        0 <= i < buckets[w as int].len(),
        kept_upto(fp, edges, w, buckets[w as int], i),
    ensures
        kept_upto(fp, edges.push(buckets[w as int][i]), w, buckets[w as int], i + 1),
{
    let bucket = buckets[w as int];
    let e = bucket[i];
    let more = edges.push(e);
    assert(e.0 < e.1 && weight_of(fp, e) == w);
    assert forall|a: int, b: int| 0 <= a < b < more.len() implies kept_before(
        fp,
        #[trigger] more[a],
        #[trigger] more[b],
    ) by {
        assert(more[a] == edges[a]);
        if b < edges.len() {
            assert(more[b] == edges[b]);
        } else if weight_of(fp, edges[a]) >= w {
            let k = choose|k: int| 0 <= k < i && #[trigger] bucket[k] == edges[a];
            assert(pair_before(bucket[k], bucket[i]));
            assert(weight_of(fp, bucket[k]) == w);
        }
    }
    assert forall|j: int| 0 <= j < more.len() implies weight_of(fp, #[trigger] more[j]) < w
        || exists|k: int| 0 <= k < i + 1 && #[trigger] bucket[k] == more[j] by {
        if j < edges.len() {
            assert(more[j] == edges[j]);
            if weight_of(fp, edges[j]) >= w {
                let k = choose|k: int| 0 <= k < i && #[trigger] bucket[k] == edges[j];
                assert(0 <= k < i + 1 && bucket[k] == more[j]);
            }
        } else {
            assert(0 <= i < i + 1 && bucket[i] == more[j]);
        }
    }
}

/// Passing over the next pair of the bucket keeps the order.
proof fn lemma_kept_skip(fp: Seq<u64>, edges: Seq<Edge>, w: nat, bucket: Seq<Edge>, i: int)
    requires
        kept_upto(fp, edges, w, bucket, i),
    ensures
        kept_upto(fp, edges, w, bucket, i + 1),
{
    assert forall|j: int| 0 <= j < edges.len() implies weight_of(fp, #[trigger] edges[j]) < w
        || exists|k: int| 0 <= k < i + 1 && #[trigger] bucket[k] == edges[j] by {
        if weight_of(fp, edges[j]) >= w {
            let k = choose|k: int| 0 <= k < i && #[trigger] bucket[k] == edges[j];
            assert(0 <= k < i + 1 && bucket[k] == edges[j]);
        }
    }
}

/// Going on to the bucket of the next weight keeps the order.
proof fn lemma_kept_raise(
    fp: Seq<u64>,
    edges: Seq<Edge>,
    buckets: Seq<Seq<Edge>>,
    w: nat,
    i: int,
    next: Seq<Edge>,
)
    requires
        is_bucketing(fp, buckets),
        w <= MAX_WEIGHT,
        0 <= i <= buckets[w as int].len(),
        kept_upto(fp, edges, w, buckets[w as int], i),
    ensures
        kept_upto(fp, edges, w + 1, next, 0),
{
    let bucket = buckets[w as int];
    assert forall|j: int| 0 <= j < edges.len() implies weight_of(fp, #[trigger] edges[j]) < w + 1
        || exists|k: int| 0 <= k < 0 && #[trigger] next[k] == edges[j] by {
        if weight_of(fp, edges[j]) >= w {
            let k = choose|k: int| 0 <= k < i && #[trigger] bucket[k] == edges[j];
            assert(weight_of(fp, bucket[k]) == w);
        }
    }
}

/// For every vertex, the edges that make its neighbours stand in the order
/// in which they were kept.
pub open spec fn via_ascending(via: Seq<Seq<int>>) -> bool {
    forall|u: int, i: int, j: int|
        0 <= u < via.len() && 0 <= i < j < via[u].len() ==> (#[trigger] via[u][i])
            < (#[trigger] via[u][j])
}

/// One more edge comes last among the edges of both its ends.
proof fn lemma_via_push(
    n: nat,
    edges: Seq<Edge>,
    adj: Seq<Seq<usize>>,
    via: Seq<Seq<int>>,
    e: Edge,
)
    requires
        adjacency_of(n, edges, adj, via),
        via_ascending(via),
        e.0 < n,
        e.1 < n,
        e.0 != e.1,
    ensures
        via_ascending(
            via.update(e.0 as int, via[e.0 as int].push(edges.len() as int)).update(
                e.1 as int,
                via[e.1 as int].push(edges.len() as int),
            ),
        ),
{
    reveal(adjacency_of);
    let a = e.0 as int;
    let b = e.1 as int;
    let via2 = via.update(a, via[a].push(edges.len() as int)).update(
        b,
        via[b].push(edges.len() as int),
    );
    assert forall|u: int, i: int, j: int|
        0 <= u < via2.len() && 0 <= i < j < via2[u].len() implies (#[trigger] via2[u][i])
        < (#[trigger] via2[u][j]) by {
        assert(via[u].len() == adj[u].len());
        assert(via2[u][i] == via[u][i]);
        assert(adj[u][i] < n);
        if (u == a || u == b) && j == via[u].len() {
            assert(via2[u][j] == edges.len());
        } else {
            assert(via2[u][j] == via[u][j]);
        }
    }
}

/// Takes the pairs of vertices in ascending order of distance and keeps each
/// that joins two different sets, until one set is left. Returns the kept
/// edges and the neighbours of each vertex under them.
#[verifier::rlimit(50)]
pub(crate) fn grow_forest(fps: &Vec<u64>) -> (out: (
    Vec<Edge>,
    Vec<Vec<usize>>,
    Ghost<Seq<Seq<int>>>,
))
    requires
        fps@.len() >= 1,
    ensures
        out.0@.len() == fps@.len() - 1,
        forall|j: int|
            0 <= j < out.0@.len() ==> (#[trigger] out.0@[j]).0 < fps@.len() && out.0@[j].1
                < fps@.len(),
        joins_near(fps@, out.0@),
        adjacency_of(fps@.len(), out.0@, child_lists(out.1@), out.2@),
        edges_ascending(fps@, out.0@),
        via_ascending(out.2@),
{
    let n = fps.len();
    let buckets = bucket_edges(fps);
    let mut sets = DisjointSets::new(n);
    let mut edges: Vec<Edge> = Vec::new();
    let mut adj: Vec<Vec<usize>> = Vec::new();
    let mut u: usize = 0;
    while u < n
        invariant
            u <= n,
            adj@.len() == u,
            forall|v: int| 0 <= v < u ==> (#[trigger] adj@[v])@.len() == 0,
        decreases n - u,
    {
        adj.push(Vec::new());
        u = u + 1;
    }
    let ghost mut via: Seq<Seq<int>> = Seq::new(n as nat, |u: int| Seq::<int>::empty());
    proof {
        sets.lemma_repr();
        lemma_forest_start(fps@, sets.repr());
        lemma_adjacency_start(n as nat, child_lists(adj@));
        assert(edges@ =~= Seq::<Edge>::empty());
    }
    let mut w: usize = 0;
    while w <= MAX_WEIGHT && sets.sets() > 1
        invariant
            n == fps@.len(),
            n >= 1,
            sets.wf(),
            sets.len() == n,
            w <= MAX_WEIGHT + 1,
            adj@.len() == n,
            is_bucketing(fps@, bucket_lists(buckets@)),
            forest_state(fps@, sets.repr(), sets.set_count(), edges@, w as nat, w as nat),
            settled(fps@, sets.repr(), w as nat),
            adjacency_of(n as nat, edges@, child_lists(adj@), via),
            forall|j: int| 0 <= j < edges@.len() ==> (#[trigger] edges@[j]).0 < n && edges@[j].1 < n,
            kept_upto(fps@, edges@, w as nat, Seq::<Edge>::empty(), 0),
            via_ascending(via),
            n == via.len(),
        decreases MAX_WEIGHT + 1 - w,
    {
        proof {
            lemma_forest_raise(fps@, sets.repr(), sets.set_count(), edges@, w as nat);
        }
        let bucket = &buckets[w];
        assert(bucket@ == bucket_lists(buckets@)[w as int]);
        assert(kept_upto(fps@, edges@, w as nat, bucket@, 0));
        let mut i: usize = 0;
        while i < bucket.len() && sets.sets() > 1
            invariant
                n == fps@.len(),
                n >= 1,
                sets.wf(),
                sets.len() == n,
                w <= MAX_WEIGHT,
                adj@.len() == n,
                is_bucketing(fps@, bucket_lists(buckets@)),
                bucket@ == bucket_lists(buckets@)[w as int],
                i <= bucket@.len(),
                forest_state(fps@, sets.repr(), sets.set_count(), edges@, (w + 1) as nat, w as nat),
                settled(fps@, sets.repr(), w as nat),
                bucket_settled(sets.repr(), bucket@, i as int),
                adjacency_of(n as nat, edges@, child_lists(adj@), via),
                forall|j: int|
                    0 <= j < edges@.len() ==> (#[trigger] edges@[j]).0 < n && edges@[j].1 < n,
                kept_upto(fps@, edges@, w as nat, bucket@, i as int),
                via_ascending(via),
                n == via.len(),
            decreases bucket@.len() - i,
        {
            let e = bucket[i];
            let a = e.0;
            let b = e.1;
            let ghost before = sets.repr();
            let ghost old_count = sets.set_count();
            let ghost old_adj = child_lists(adj@);
            assert(bucket_lists(buckets@)[w as int][i as int] == e);
            assert(a < b && b < n && weight_of(fps@, e) == w);
            let merged = sets.union(a, b);
            if merged {
                proof {
                    sets.lemma_repr();
                    lemma_forest_accept(
                        fps@,
                        before,
                        sets.repr(),
                        old_count,
                        edges@,
                        w as nat,
                        e,
                    );
                    lemma_merge_keeps_settled(
                        fps@,
                        before,
                        sets.repr(),
                        a as int,
                        b as int,
                        w as nat,
                        bucket@,
                        i as int,
                    );
                    lemma_adjacency_push(n as nat, edges@, old_adj, via, e);
                    lemma_via_push(n as nat, edges@, old_adj, via, e);
                    lemma_kept_push(
                        fps@,
                        edges@,
                        bucket_lists(buckets@),
                        w as nat,
                        i as int,
                    );
                    via = via.update(a as int, via[a as int].push(edges@.len() as int)).update(
                        b as int,
                        via[b as int].push(edges@.len() as int),
                    );
                }
                edges.push(e);
                adj[a].push(b);
                adj[b].push(a);
                proof {
                    assert(child_lists(adj@) =~= old_adj.update(
                        a as int,
                        old_adj[a as int].push(b),
                    ).update(b as int, old_adj[b as int].push(a)));
                }
            } else {
                proof {
                    lemma_kept_skip(fps@, edges@, w as nat, bucket@, i as int);
                }
            }
            assert(bucket_settled(sets.repr(), bucket@, i + 1));
            i = i + 1;
        }
        proof {
            sets.lemma_single_set();
            if sets.set_count() > 1 {
                lemma_bucket_complete(fps@, sets.repr(), bucket_lists(buckets@), w as nat);
            } else {
                sets.lemma_repr();
            }
            lemma_forest_bucket_done(fps@, sets.repr(), sets.set_count(), edges@, w as nat);
            lemma_kept_raise(
                fps@,
                edges@,
                bucket_lists(buckets@),
                w as nat,
                i as int,
                Seq::<Edge>::empty(),
            );
        }
        w = w + 1;
    }
    proof {
        sets.lemma_single_set();
        sets.lemma_repr();
        if sets.set_count() > 1 {
            assert(w == MAX_WEIGHT + 1);
            assert forall|x: int, y: int|
                0 <= x < n && 0 <= y < n implies #[trigger] sets.repr()[x] == #[trigger] sets.repr()[y] by {
                lemma_hamming_bound(fps@[x], fps@[y]);
            }
        }
        lemma_forest_finish(fps@, sets.repr(), sets.set_count(), edges@, w as nat, w as nat);
        lemma_forest_facts(fps@, sets.repr(), sets.set_count(), edges@, w as nat, w as nat);
    }
    (edges, adj, Ghost(via))
}

/// Every one of `edges` leads from a vertex to its parent.
pub open spec fn every_edge_links(edges: Seq<Edge>, parent: Seq<usize>) -> bool {
    forall|j: int|
        0 <= j < edges.len() ==> ((#[trigger] edges[j]).0 != 0 && parent[edges[j].0 as int]
            == edges[j].1) || (edges[j].1 != 0 && parent[edges[j].1 as int] == edges[j].0)
}

/// A tree whose edges are edges that join all near vertices is saturated.
pub proof fn lemma_linking_tree_is_saturated(
    fp: Seq<u64>,
    edges: Seq<Edge>,
    parent: Seq<usize>,
    rank: Seq<int>,
)
    requires
        parent.len() == fp.len(),
        ranked(parent, rank),
        joins_near(fp, edges),
        every_edge_links(edges, parent),
        forall|j: int|
            0 <= j < edges.len() ==> (#[trigger] edges[j]).0 < fp.len() && edges[j].1 < fp.len(),
    ensures
        saturated(fp, parent, rank),
{
    let n = fp.len();
    assert forall|k: nat, x: int, y: int|
        0 <= x < n && 0 <= y < n && edge_weight(fp, x, y) < k implies #[trigger] light_root(
        fp,
        parent,
        rank,
        k,
        x,
    ) == #[trigger] light_root(fp, parent, rank, k, y) by {
        let top = light_root(fp, parent, rank, k, x);
        let group = Set::new(|z: int| 0 <= z < n && light_root(fp, parent, rank, k, z) == top);
        assert forall|j: int| 0 <= j < edges.len() && weight_of(fp, #[trigger] edges[j])
            < k implies (group.contains(edges[j].0 as int) <==> group.contains(
            edges[j].1 as int,
        )) by {
            let a = edges[j].0 as int;
            let b = edges[j].1 as int;
            lemma_edge_weight_symmetric(fp, a, b);
            if a != 0 && parent[a] == b {
                assert(is_light(fp, parent, k, a));
            } else {
                assert(is_light(fp, parent, k, b));
            }
            assert(light_root(fp, parent, rank, k, a) == light_root(fp, parent, rank, k, b));
        }
        assert(closed_below(fp, group, edges, k));
        assert(joined_below(fp, edges, k, x, y));
        assert(group.contains(x));
        assert(group.contains(y));
    }
}

/// The vertices reached so far have all their neighbours reached, up to the
/// `h`-th in the order of discovery; and every vertex reached hangs on its
/// parent by one of the edges.
#[verifier::opaque]
pub open spec fn search_state(
    n: nat,
    edges: Seq<Edge>,
    adj: Seq<Seq<usize>>,
    order: Seq<usize>,
    seen: Seq<bool>,
    parent: Seq<usize>,
    came_by: Seq<int>,
    h: int,
) -> bool {
    &&& came_by.len() == n
    &&& 0 <= h <= order.len()
    &&& forall|t: int, i: int|
        0 <= t < h && 0 <= i < adj[order[t] as int].len() ==> (#[trigger] adj[order[t] as int][i])
            < n && seen[adj[order[t] as int][i] as int]
    &&& forall|v: int|
        0 < v < n && seen[v] ==> 0 <= #[trigger] came_by[v] < edges.len() && (edges[came_by[v]] == (
            v as usize,
            parent[v],
        ) || edges[came_by[v]] == (parent[v], v as usize))
}

proof fn lemma_search_start(n: nat, edges: Seq<Edge>, adj: Seq<Seq<usize>>)
    requires
        n >= 1,
    ensures
        search_state(
            n,
            edges,
            adj,
            seq![0usize],
            start_in_tree(n),
            start_parent(n),
            Seq::new(n, |v: int| 0int),
            0,
        ),
{
    reveal(search_state);
}

/// Reaching the vertex `to` from `from` by the edge `j`.
proof fn lemma_search_reach(
    n: nat,
    edges: Seq<Edge>,
    adj: Seq<Seq<usize>>,
    order: Seq<usize>,
    seen: Seq<bool>,
    parent: Seq<usize>,
    came_by: Seq<int>,
    h: int,
    from: usize,
    to: usize,
    j: int,
)
    requires
        search_state(n, edges, adj, order, seen, parent, came_by, h),
        seen.len() == n,
        parent.len() == n,
        to < n,
        !seen[to as int],
        0 <= j < edges.len(),
        edges[j] == (from, to) || edges[j] == (to, from),
    ensures
        search_state(
            n,
            edges,
            adj,
            order.push(to),
            seen.update(to as int, true),
            parent.update(to as int, from),
            came_by.update(to as int, j),
            h,
        ),
{
    reveal(search_state);
    let order2 = order.push(to);
    let seen2 = seen.update(to as int, true);
    assert forall|t: int, i: int|
        0 <= t < h && 0 <= i < adj[order2[t] as int].len() implies (#[trigger] adj[order2[t] as int][i])
        < n && seen2[adj[order2[t] as int][i] as int] by {
        assert(order2[t] == order[t]);
        assert(seen[adj[order[t] as int][i] as int]);
    }
}

/// The `h`-th vertex in the order of discovery has all its neighbours reached.
proof fn lemma_search_next(
    n: nat,
    edges: Seq<Edge>,
    adj: Seq<Seq<usize>>,
    order: Seq<usize>,
    seen: Seq<bool>,
    parent: Seq<usize>,
    came_by: Seq<int>,
    h: int,
)
    requires
        search_state(n, edges, adj, order, seen, parent, came_by, h),
        h < order.len(),
        forall|i: int|
            0 <= i < adj[order[h] as int].len() ==> (#[trigger] adj[order[h] as int][i]) < n
                && seen[adj[order[h] as int][i] as int],
    ensures
        search_state(n, edges, adj, order, seen, parent, came_by, h + 1),
{
    reveal(search_state);
}

/// When the search has nothing left to look at, it has reached every vertex,
/// and every edge leads from a vertex to its parent.
proof fn lemma_search_done(
    fp: Seq<u64>,
    edges: Seq<Edge>,
    adj: Seq<Seq<usize>>,
    via: Seq<Seq<int>>,
    order: Seq<usize>,
    seen: Seq<bool>,
    children: Seq<Seq<usize>>,
    parent: Seq<usize>,
    pos: Seq<int>,
    slot: Seq<int>,
    came_by: Seq<int>,
)
    requires
        fp.len() >= 1,
        fp.len() <= usize::MAX,
        edges.len() == fp.len() - 1,
        forall|j: int|
            0 <= j < edges.len() ==> (#[trigger] edges[j]).0 < fp.len() && edges[j].1 < fp.len(),
        joins_near(fp, edges),
        adjacency_of(fp.len(), edges, adj, via),
        partial_tree(fp.len(), order, seen, children, parent, pos, slot),
        search_state(fp.len(), edges, adj, order, seen, parent, came_by, order.len() as int),
    ensures
        order.len() == fp.len(),
        every_edge_links(edges, parent),
{
    reveal(search_state);
    reveal(adjacency_of);
    let n = fp.len();
    lemma_partial_facts(n, order, seen, children, parent, pos, slot);
    let reached = Set::new(|v: int| 0 <= v < n && seen[v]);
    assert forall|j: int| 0 <= j < edges.len() implies (reached.contains(
        (#[trigger] edges[j]).0 as int,
    ) <==> reached.contains(edges[j].1 as int)) by {
        let a = edges[j].0;
        let b = edges[j].1;
        if seen[a as int] {
            let i = choose|i: int| 0 <= i < adj[a as int].len() && adj[a as int][i] == b;
            assert(order[pos[a as int]] == a);
            assert(seen[adj[order[pos[a as int]] as int][i] as int]);
        }
        if seen[b as int] {
            let i = choose|i: int| 0 <= i < adj[b as int].len() && adj[b as int][i] == a;
            assert(order[pos[b as int]] == b);
            assert(seen[adj[order[pos[b as int]] as int][i] as int]);
        }
    }
    assert(closed_below(fp, reached, edges, 65));
    assert forall|x: int| 0 <= x < n implies seen[x] by {
        lemma_hamming_bound(fp[0], fp[x]);
        assert(joined_below(fp, edges, 65, 0, x));
        assert(reached.contains(0));
        assert(reached.contains(x));
    }
    lemma_count_set_all(seen);
    lemma_partial_done(n, order, seen, children, parent, pos, slot);
    // each vertex but 0 came by an edge of its own, so every edge was come by
    let rest = set_int_range(1, n as int);
    let numbers = set_int_range(0, n - 1);
    let edge_of = |v: int| came_by[v];
    lemma_int_range(1, n as int);
    lemma_int_range(0, n - 1);
    assert forall|u: int, v: int|
        rest.contains(u) && rest.contains(v) && #[trigger] edge_of(u) == #[trigger] edge_of(v) implies u
        == v by {
        assert(seen[u] && seen[v]);
        assert(seen[parent[u] as int] && seen[parent[v] as int]);
    }
    assert(vstd::relations::injective_on(edge_of, rest));
    let used = rest.map(edge_of);
    lemma_map_size(rest, used, edge_of);
    assert forall|j: int| used.contains(j) implies numbers.contains(j) by {
        let v = choose|v: int| rest.contains(v) && j == edge_of(v);
        assert(seen[v]);
    }
    lemma_subset_equality(used, numbers);
    assert forall|j: int| 0 <= j < edges.len() implies ((#[trigger] edges[j]).0 != 0
        && parent[edges[j].0 as int] == edges[j].1) || (edges[j].1 != 0 && parent[edges[j].1 as int]
        == edges[j].0) by {
        assert(numbers.contains(j));
        assert(used.contains(j));
        let v = choose|v: int| rest.contains(v) && j == edge_of(v);
        assert(seen[v]);
    }
}

/// The edge between a vertex and one of its children, lower vertex first.
pub open spec fn edge_between(v: int, c: usize) -> Edge {
    if v < c {
        (v as usize, c)
    } else {
        (c, v as usize)
    }
}

/// The children of every vertex stand in the order in which the edges to
/// them were kept: in ascending order of weight, and among edges of one
/// weight in the order of the enumeration of all pairs.
pub open spec fn children_in_kept_order(fp: Seq<u64>, children: Seq<Seq<usize>>) -> bool {
    forall|v: int, i: int, j: int|
        0 <= v < children.len() && 0 <= i < j < children[v].len() ==> kept_before(
            fp,
            edge_between(v, #[trigger] children[v][i]),
            edge_between(v, #[trigger] children[v][j]),
        )
}

/// The children that a vertex has so far came by edges that stand before
/// those of its neighbours from the `i`-th on.
pub open spec fn came_before_rest(
    kids: Seq<usize>,
    came_by: Seq<int>,
    edges_of: Seq<int>,
    i: int,
) -> bool {
    forall|k: int, r: int|
        0 <= k < kids.len() && i <= r < edges_of.len() ==> came_by[(#[trigger] kids[k]) as int]
            < (#[trigger] edges_of[r])
}

/// How the children stand while the search goes on: those of a vertex in
/// the order of the edges by which they came, all of them reached, and no
/// vertex has children before the search looks at it.
#[verifier::opaque]
pub open spec fn search_order(
    n: nat,
    order: Seq<usize>,
    seen: Seq<bool>,
    children: Seq<Seq<usize>>,
    came_by: Seq<int>,
    h: int,
) -> bool {
    &&& children.len() == n
    &&& seen.len() == n
    &&& came_by.len() == n
    &&& forall|x: int, i: int, j: int|
        0 <= x < n && 0 <= i < j < children[x].len() ==> came_by[(#[trigger] children[x][i]) as int]
            < came_by[(#[trigger] children[x][j]) as int]
    &&& forall|x: int, i: int|
        0 <= x < n && 0 <= i < children[x].len() ==> (#[trigger] children[x][i]) < n
            && seen[children[x][i] as int]
    &&& forall|x: int| 0 <= x < n && !seen[x] ==> (#[trigger] children[x]).len() == 0
    &&& forall|t: int|
        h < t < order.len() ==> (#[trigger] order[t]) < n && children[order[t] as int].len() == 0
}

proof fn lemma_order_start(n: nat, children: Seq<Seq<usize>>)
    requires
        n >= 1,
        children.len() == n,
        forall|v: int| 0 <= v < children.len() ==> (#[trigger] children[v]).len() == 0,
    ensures
        search_order(n, seq![0usize], start_in_tree(n), children, Seq::new(n, |v: int| 0int), 0),
{
    reveal(search_order);
}

/// Reaching the vertex `to` from `from`, the vertex that the search looks
/// at, by the edge `j` of its `i`-th neighbour.
proof fn lemma_order_reach(
    n: nat,
    order: Seq<usize>,
    seen: Seq<bool>,
    children: Seq<Seq<usize>>,
    came_by: Seq<int>,
    h: int,
    from: usize,
    to: usize,
    edges_of: Seq<int>,
    i: int,
)
    requires
        search_order(n, order, seen, children, came_by, h),
        0 <= h < order.len(),
        from == order[h],
        forall|t: int| 0 <= t < order.len() && t != h ==> (#[trigger] order[t]) != from,
        from < n,
        to < n,
        seen[from as int],
        !seen[to as int],
        0 <= i < edges_of.len(),
        forall|a: int, b: int|
            0 <= a < b < edges_of.len() ==> (#[trigger] edges_of[a]) < (#[trigger] edges_of[b]),
        came_before_rest(children[from as int], came_by, edges_of, i),
    ensures
        search_order(
            n,
            order.push(to),
            seen.update(to as int, true),
            children.update(from as int, children[from as int].push(to)),
            came_by.update(to as int, edges_of[i]),
            h,
        ),
        came_before_rest(
            children[from as int].push(to),
            came_by.update(to as int, edges_of[i]),
            edges_of,
            i + 1,
        ),
{
    reveal(search_order);
    let order2 = order.push(to);
    let seen2 = seen.update(to as int, true);
    let kids = children[from as int];
    let children2 = children.update(from as int, kids.push(to));
    let came2 = came_by.update(to as int, edges_of[i]);
    assert forall|x: int, a: int| 0 <= x < n && 0 <= a < children2[x].len() implies (
    #[trigger] children2[x][a]) < n && seen2[children2[x][a] as int] by {
        if !(x == from && a == kids.len()) {
            assert(children2[x][a] == children[x][a]);
            assert(seen[children[x][a] as int]);
        }
    }
    assert forall|x: int, a: int, b: int|
        0 <= x < n && 0 <= a < b < children2[x].len() implies came2[(
    #[trigger] children2[x][a]) as int] < came2[(#[trigger] children2[x][b]) as int] by {
        assert(children2[x][a] == children[x][a]);
        assert(seen[children[x][a] as int]);
        if x == from && b == kids.len() {
            assert(came_by[kids[a] as int] < edges_of[i]);
        } else {
            assert(children2[x][b] == children[x][b]);
            assert(seen[children[x][b] as int]);
        }
    }
    assert forall|x: int| 0 <= x < n && !seen2[x] implies (#[trigger] children2[x]).len() == 0 by {
        assert(!seen[x]);
        assert(children[x].len() == 0);
    }
    assert forall|t: int| h < t < order2.len() implies (#[trigger] order2[t]) < n
        && children2[order2[t] as int].len() == 0 by {
        if t < order.len() {
            assert(order2[t] == order[t]);
            assert(order[t] != from);
        } else {
            assert(children[to as int].len() == 0);
        }
    }
    assert forall|k: int, r: int|
        0 <= k < kids.push(to).len() && i + 1 <= r < edges_of.len() implies came2[(
    #[trigger] kids.push(to)[k]) as int] < (#[trigger] edges_of[r]) by {
        if k < kids.len() {
            assert(kids.push(to)[k] == kids[k]);
            assert(seen[children[from as int][k] as int]);
            assert(came_by[kids[k] as int] < edges_of[r]);
        } else {
            assert(edges_of[i] < edges_of[r]);
        }
    }
}

/// Going on to the next vertex in the order of discovery, which has no
/// children yet.
proof fn lemma_order_next(
    n: nat,
    order: Seq<usize>,
    seen: Seq<bool>,
    children: Seq<Seq<usize>>,
    came_by: Seq<int>,
    h: int,
)
    requires
        search_order(n, order, seen, children, came_by, h),
    ensures
        search_order(n, order, seen, children, came_by, h + 1),
        h + 1 < order.len() ==> children[order[h + 1] as int].len() == 0,
{
    reveal(search_order);
}

/// When the search is over, the children of every vertex stand in the order
/// in which the edges to them were kept.
proof fn lemma_order_done(
    fp: Seq<u64>,
    edges: Seq<Edge>,
    adj: Seq<Seq<usize>>,
    order: Seq<usize>,
    seen: Seq<bool>,
    children: Seq<Seq<usize>>,
    parent: Seq<usize>,
    came_by: Seq<int>,
    h: int,
)
    requires
        search_order(fp.len(), order, seen, children, came_by, h),
        search_state(fp.len(), edges, adj, order, seen, parent, came_by, h),
        edges_ascending(fp, edges),
        forall|v: int, i: int|
            0 <= v < children.len() && 0 <= i < children[v].len() ==> 0 < (
            #[trigger] children[v][i]) && parent[children[v][i] as int] == v,
    ensures
        children_in_kept_order(fp, children),
{
    reveal(search_order);
    reveal(search_state);
    assert forall|v: int, i: int, j: int|
        0 <= v < children.len() && 0 <= i < j < children[v].len() implies kept_before(
        fp,
        edge_between(v, #[trigger] children[v][i]),
        edge_between(v, #[trigger] children[v][j]),
    ) by {
        let c = children[v][i];
        let d = children[v][j];
        assert(seen[c as int] && seen[d as int]);
        let a = came_by[c as int];
        let b = came_by[d as int];
        assert(a < b);
        assert(edges[a].0 < edges[a].1);
        assert(edges[b].0 < edges[b].1);
        assert(edges[a] == edge_between(v, c));
        assert(edges[b] == edge_between(v, d));
        assert(kept_before(fp, edges[a], edges[b]));
    }
}

/// Walks the kept edges from vertex 0 breadth first and hangs every vertex
/// on the vertex from which it was first reached. Returns the child list of
/// each vertex and, as ghost values, the parent of each vertex, the order of
/// discovery, and the place of each vertex among the children of its parent.
#[verifier::rlimit(50)]
pub(crate) fn orient_from_root(
    fps: &Vec<u64>,
    edges: &Vec<Edge>,
    adj: &Vec<Vec<usize>>,
    via: Ghost<Seq<Seq<int>>>,
) -> (out: (Vec<Vec<usize>>, Ghost<Seq<usize>>, Ghost<Seq<int>>, Ghost<Seq<int>>))
    requires
        fps@.len() >= 1,
        edges@.len() == fps@.len() - 1,
        forall|j: int|
            0 <= j < edges@.len() ==> (#[trigger] edges@[j]).0 < fps@.len() && edges@[j].1
                < fps@.len(),
        joins_near(fps@, edges@),
        adjacency_of(fps@.len(), edges@, child_lists(adj@), via@),
        edges_ascending(fps@, edges@),
        via_ascending(via@),
    ensures
        out.0@.len() == fps@.len(),
        out.1@.len() == fps@.len(),
        (TreeModel { children: child_lists(out.0@), parent: out.1@, rank: out.2@, slot: out.3@ }).wf(),
        every_edge_links(edges@, out.1@),
        children_in_kept_order(fps@, child_lists(out.0@)),
{
    let n = fps.len();
    let mut order: Vec<usize> = Vec::new();
    let mut seen: Vec<bool> = Vec::new();
    let mut graph: Vec<Vec<usize>> = Vec::new();
    let mut i: usize = 0;
    while i < n
        invariant
            i <= n,
            seen@ =~= Seq::new(i as nat, |j: int| false),
            graph@.len() == i,
            forall|v: int| 0 <= v < i ==> (#[trigger] graph@[v])@.len() == 0,
        decreases n - i,
    {
        seen.push(false);
        graph.push(Vec::new());
        i = i + 1;
    }
    let ghost mut parent: Seq<usize> = start_parent(n as nat);
    let ghost mut pos: Seq<int> = start_pos(n as nat);
    let ghost mut slot: Seq<int> = start_slot(n as nat);
    let ghost mut came_by: Seq<int> = Seq::new(n as nat, |v: int| 0int);
    order.push(0);
    seen.set(0, true);
    proof {
        lemma_partial_start(n as nat, child_lists(graph@));
        lemma_search_start(n as nat, edges@, child_lists(adj@));
        lemma_order_start(n as nat, child_lists(graph@));
        assert(order@ =~= seq![0usize]);
        assert(seen@ =~= start_in_tree(n as nat));
        reveal(adjacency_of);
    }
    let mut h: usize = 0;
    while h < order.len()
        invariant
            n == fps@.len(),
            graph@.len() == n,
            adj@.len() == n,
            h <= order@.len(),
            order@.len() <= n,
            adjacency_of(n as nat, edges@, child_lists(adj@), via@),
            partial_tree(n as nat, order@, seen@, child_lists(graph@), parent, pos, slot),
            search_state(
                n as nat,
                edges@,
                child_lists(adj@),
                order@,
                seen@,
                parent,
                came_by,
                h as int,
            ),
            via_ascending(via@),
            search_order(n as nat, order@, seen@, child_lists(graph@), came_by, h as int),
            h < order@.len() ==> child_lists(graph@)[order@[h as int] as int].len() == 0,
        decreases n - h,
    {
        proof {
            lemma_partial_facts(n as nat, order@, seen@, child_lists(graph@), parent, pos, slot);
        }
        let u = order[h];
        let near = &adj[u];
        assert(near@ == child_lists(adj@)[u as int]);
        let mut i: usize = 0;
        while i < near.len()
            invariant
                n == fps@.len(),
                graph@.len() == n,
                adj@.len() == n,
                h < order@.len(),
                order@.len() <= n,
                u == order@[h as int],
                u < n,
                seen@.len() == n,
                seen@[u as int],
                near@ == child_lists(adj@)[u as int],
                i <= near@.len(),
                adjacency_of(n as nat, edges@, child_lists(adj@), via@),
                partial_tree(n as nat, order@, seen@, child_lists(graph@), parent, pos, slot),
                search_state(
                    n as nat,
                    edges@,
                    child_lists(adj@),
                    order@,
                    seen@,
                    parent,
                    came_by,
                    h as int,
                ),
                forall|t: int| 0 <= t < i ==> (#[trigger] near@[t]) < n && seen@[near@[t] as int],
                via_ascending(via@),
                search_order(n as nat, order@, seen@, child_lists(graph@), came_by, h as int),
                came_before_rest(
                    child_lists(graph@)[u as int],
                    came_by,
                    via@[u as int],
                    i as int,
                ),
            decreases near@.len() - i,
        {
            let nb = near[i];
            proof {
                lemma_partial_facts(
                    n as nat,
                    order@,
                    seen@,
                    child_lists(graph@),
                    parent,
                    pos,
                    slot,
                );
                reveal(adjacency_of);
                assert(child_lists(adj@)[u as int][i as int] == nb);
                assert(nb < n);
            }
            if !seen[nb] {
                let ghost old_children = child_lists(graph@);
                let ghost old_seen = seen@;
                proof {
                    let j = via@[u as int][i as int];
                    lemma_partial_extend(
                        n as nat,
                        order@,
                        seen@,
                        old_children,
                        parent,
                        pos,
                        slot,
                        u,
                        nb,
                    );
                    lemma_search_reach(
                        n as nat,
                        edges@,
                        child_lists(adj@),
                        order@,
                        seen@,
                        parent,
                        came_by,
                        h as int,
                        u,
                        nb,
                        j,
                    );
                    assert forall|t: int| 0 <= t < order@.len() && t != h implies (
                    #[trigger] order@[t]) != u by {
                        assert(pos[order@[t] as int] == t);
                    }
                    lemma_order_reach(
                        n as nat,
                        order@,
                        seen@,
                        old_children,
                        came_by,
                        h as int,
                        u,
                        nb,
                        via@[u as int],
                        i as int,
                    );
                    slot = slot.update(nb as int, old_children[u as int].len() as int);
                    parent = parent.update(nb as int, u);
                    pos = pos.update(nb as int, order@.len() as int);
                    came_by = came_by.update(nb as int, j);
                }
                order.push(nb);
                seen.set(nb, true);
                graph[u].push(nb);
                proof {
                    assert(child_lists(graph@) =~= old_children.update(
                        u as int,
                        old_children[u as int].push(nb),
                    ));
                    lemma_partial_facts(
                        n as nat,
                        order@,
                        seen@,
                        child_lists(graph@),
                        parent,
                        pos,
                        slot,
                    );
                    assert forall|t: int| 0 <= t < i implies (#[trigger] near@[t]) < n
                        && seen@[near@[t] as int] by {
                        assert(old_seen[near@[t] as int]);
                    }
                }
            }
            i = i + 1;
        }
        proof {
            lemma_search_next(
                n as nat,
                edges@,
                child_lists(adj@),
                order@,
                seen@,
                parent,
                came_by,
                h as int,
            );
            lemma_order_next(n as nat, order@, seen@, child_lists(graph@), came_by, h as int);
        }
        h = h + 1;
    }
    proof {
        lemma_search_done(
            fps@,
            edges@,
            child_lists(adj@),
            via@,
            order@,
            seen@,
            child_lists(graph@),
            parent,
            pos,
            slot,
            came_by,
        );
        lemma_partial_facts(n as nat, order@, seen@, child_lists(graph@), parent, pos, slot);
        lemma_partial_done(n as nat, order@, seen@, child_lists(graph@), parent, pos, slot);
        lemma_order_done(
            fps@,
            edges@,
            child_lists(adj@),
            order@,
            seen@,
            child_lists(graph@),
            parent,
            came_by,
            h as int,
        );
    }
    (graph, Ghost(parent), Ghost(pos), Ghost(slot))
}

} // verus!
