//! Growing a minimum spanning tree from vertex 0, one frontier scan at a time.

use crate::perceptual::hamming_distance;
use crate::spanning::{
    edge_weight, is_light, lemma_edge_weight_symmetric, lemma_light_root_props, light_root,
    ranked, saturated,
};
use crate::graph::TreeModel;
use crate::rooted::{
    child_lists, lemma_partial_done, lemma_partial_extend, lemma_partial_facts,
    lemma_partial_start, lists_tree, partial_tree, start_in_tree, start_parent, start_pos,
    start_slot,
};
use rayon::iter::{IntoParallelRefIterator, ParallelIterator};
use vstd::prelude::*;

verus! {

/// A candidate edge of a frontier scan: a vertex in the tree, a vertex outside
/// it, and their distance.
pub type Candidate = (usize, usize, u64);

/// The tree was grown from vertex 0 by always taking a lightest edge that
/// leaves it: `pos` is the order in which the vertices joined, and the edge on
/// which a vertex hangs is no heavier than any edge between a vertex that
/// joined before it and one that had not.
pub open spec fn frontier_grown(fp: Seq<u64>, parent: Seq<usize>, pos: Seq<int>) -> bool {
    &&& parent.len() == fp.len()
    &&& ranked(parent, pos)
    &&& parent.len() >= 1 ==> pos[0] == 0
    &&& forall|u: int, v: int|
        0 <= u < parent.len() && 0 <= v < parent.len() && u != v ==> #[trigger] pos[u]
            != #[trigger] pos[v]
    &&& forall|c: int, x: int, y: int|
        #![trigger pos[c], edge_weight(fp, x, y)]
        0 < c < parent.len() && 0 <= x < parent.len() && 0 <= y < parent.len() && pos[x] < pos[c]
            <= pos[y] ==> edge_weight(fp, c, parent[c] as int) <= edge_weight(fp, x, y)
}

/// Climbing light edges from `x` crosses every position between that of the
/// light root of `x` and that of `x` itself.
proof fn lemma_climb_crosses(
    fp: Seq<u64>,
    parent: Seq<usize>,
    rank: Seq<int>,
    k: nat,
    x: int,
    t: int,
) -> (u: int)
    requires
        ranked(parent, rank),
        0 <= x < parent.len(),
        rank[light_root(fp, parent, rank, k, x)] < t <= rank[x],
    ensures
        0 < u < parent.len(),
        is_light(fp, parent, k, u),
        rank[parent[u] as int] < t <= rank[u],
    decreases rank[x],
{
    if rank[parent[x] as int] < t {
        x
    } else {
        lemma_climb_crosses(fp, parent, rank, k, parent[x] as int, t)
    }
}

/// Of two vertices closer than `k`, the light root of the second joined the
/// tree no later than that of the first.
proof fn lemma_grown_roots_ordered(
    fp: Seq<u64>,
    parent: Seq<usize>,
    pos: Seq<int>,
    k: nat,
    x: int,
    y: int,
)
    requires
        frontier_grown(fp, parent, pos),
        0 <= x < parent.len(),
        0 <= y < parent.len(),
        edge_weight(fp, x, y) < k,
    ensures
        pos[light_root(fp, parent, pos, k, y)] <= pos[light_root(fp, parent, pos, k, x)],
{
    let a = light_root(fp, parent, pos, k, x);
    let b = light_root(fp, parent, pos, k, y);
    lemma_light_root_props(fp, parent, pos, k, x);
    lemma_light_root_props(fp, parent, pos, k, y);
    if pos[a] < pos[b] {
        assert(b != 0);
        assert(edge_weight(fp, b, parent[b] as int) >= k);
        if pos[x] < pos[b] {
            // the edge between x and y crossed the frontier when b joined
            assert(edge_weight(fp, b, parent[b] as int) <= edge_weight(fp, x, y));
        } else {
            // so did a light edge on the way up from x
            let u = lemma_climb_crosses(fp, parent, pos, k, x, pos[b]);
            lemma_edge_weight_symmetric(fp, u, parent[u] as int);
            assert(edge_weight(fp, b, parent[b] as int) <= edge_weight(fp, parent[u] as int, u));
        }
    }
}

/// A tree grown along lightest frontier edges is saturated.
pub proof fn lemma_frontier_grown_is_saturated(fp: Seq<u64>, parent: Seq<usize>, pos: Seq<int>)
    requires
        frontier_grown(fp, parent, pos),
    ensures
        saturated(fp, parent, pos),
{
    assert forall|k: nat, x: int, y: int|
        0 <= x < parent.len() && 0 <= y < parent.len() && edge_weight(fp, x, y)
            < k implies #[trigger] light_root(fp, parent, pos, k, x) == #[trigger] light_root(
        fp,
        parent,
        pos,
        k,
        y,
    ) by {
        let a = light_root(fp, parent, pos, k, x);
        let b = light_root(fp, parent, pos, k, y);
        lemma_light_root_props(fp, parent, pos, k, x);
        lemma_light_root_props(fp, parent, pos, k, y);
        lemma_grown_roots_ordered(fp, parent, pos, k, x, y);
        lemma_edge_weight_symmetric(fp, x, y);
        lemma_grown_roots_ordered(fp, parent, pos, k, y, x);
    }
}

/// `c` is an edge from a vertex inside the tree to one outside it, with its weight.
pub open spec fn is_candidate(fp: Seq<u64>, in_tree: Seq<bool>, c: Candidate) -> bool {
    &&& c.0 < in_tree.len()
    &&& c.1 < in_tree.len()
    &&& in_tree[c.0 as int]
    &&& !in_tree[c.1 as int]
    &&& c.2 == edge_weight(fp, c.0 as int, c.1 as int)
}

/// `cands` holds exactly the edges that lead from the tree to a vertex outside it.
pub open spec fn is_frontier(fp: Seq<u64>, in_tree: Seq<bool>, cands: Seq<Candidate>) -> bool {
    &&& forall|i: int| 0 <= i < cands.len() ==> is_candidate(fp, in_tree, #[trigger] cands[i])
    &&& forall|x: int, y: int|
        0 <= x < in_tree.len() && 0 <= y < in_tree.len() && in_tree[x] && !in_tree[y]
            ==> cands.contains((x as usize, y as usize, #[trigger] edge_weight(fp, x, y) as u64))
}

/// The candidates from the vertex `v` to the vertices below `upto` that are
/// outside the tree, in ascending order of these.
pub open spec fn row_candidates(fp: Seq<u64>, in_tree: Seq<bool>, v: usize, upto: nat) -> Seq<
    Candidate,
>
    decreases upto,
{
    if upto == 0 {
        Seq::empty()
    } else {
        let before = row_candidates(fp, in_tree, v, (upto - 1) as nat);
        if in_tree[upto - 1] {
            before
        } else {
            before.push((v, (upto - 1) as usize, edge_weight(fp, v as int, upto - 1) as u64))
        }
    }
}

/// The candidates of a frontier scan from the first `upto` visited vertices,
/// in the order of the scan.
pub open spec fn scan_candidates(
    fp: Seq<u64>,
    visited: Seq<usize>,
    in_tree: Seq<bool>,
    upto: nat,
) -> Seq<Candidate>
    decreases upto,
{
    if upto == 0 {
        Seq::empty()
    } else {
        scan_candidates(fp, visited, in_tree, (upto - 1) as nat) + row_candidates(
            fp,
            in_tree,
            visited[upto - 1],
            in_tree.len(),
        )
    }
}

/// What a row of a scan holds: an edge from `v` to each vertex below `upto`
/// that is outside the tree, and nothing else.
proof fn lemma_row_candidates(fp: Seq<u64>, in_tree: Seq<bool>, v: usize, upto: nat)
    requires
        upto <= in_tree.len() <= usize::MAX,
    ensures
        forall|j: int|
            0 <= j < row_candidates(fp, in_tree, v, upto).len() ==> {
                let c = #[trigger] row_candidates(fp, in_tree, v, upto)[j];
                c.0 == v && c.1 < upto && !in_tree[c.1 as int] && c.2 == edge_weight(
                    fp,
                    v as int,
                    c.1 as int,
                )
            },
        forall|y: int|
            0 <= y < upto && !in_tree[y] ==> row_candidates(fp, in_tree, v, upto).contains(
                (v, y as usize, #[trigger] edge_weight(fp, v as int, y) as u64),
            ),
    decreases upto,
{
    if upto > 0 {
        let before = row_candidates(fp, in_tree, v, (upto - 1) as nat);
        let row = row_candidates(fp, in_tree, v, upto);
        lemma_row_candidates(fp, in_tree, v, (upto - 1) as nat);
        crate::perceptual::lemma_hamming_bound(fp[v as int], fp[upto - 1]);
        assert forall|y: int| 0 <= y < upto && !in_tree[y] implies row.contains(
            (v, y as usize, #[trigger] edge_weight(fp, v as int, y) as u64),
        ) by {
            let c = (v, y as usize, edge_weight(fp, v as int, y) as u64);
            if y < upto - 1 {
                let j = choose|j: int| 0 <= j < before.len() && before[j] == c;
                assert(row[j] == c);
            } else {
                assert(row[before.len() as int] == c);
            }
        }
    }
}

/// When the visited list names the tree, a scan holds exactly the edges that
/// lead from the tree to a vertex outside it.
proof fn lemma_scan_candidates(fp: Seq<u64>, visited: Seq<usize>, in_tree: Seq<bool>, upto: nat)
    requires
        upto <= visited.len(),
        in_tree.len() == fp.len(),
        in_tree.len() <= usize::MAX,
        lists_tree(visited, in_tree),
    ensures
        forall|j: int|
            0 <= j < scan_candidates(fp, visited, in_tree, upto).len() ==> is_candidate(
                fp,
                in_tree,
                #[trigger] scan_candidates(fp, visited, in_tree, upto)[j],
            ),
        forall|a: int, y: int|
            0 <= a < upto && 0 <= y < in_tree.len() && !in_tree[y] ==> scan_candidates(
                fp,
                visited,
                in_tree,
                upto,
            ).contains(
                (visited[a], y as usize, #[trigger] edge_weight(fp, visited[a] as int, y) as u64),
            ),
    decreases upto,
{
    if upto > 0 {
        let v = visited[upto - 1];
        let before = scan_candidates(fp, visited, in_tree, (upto - 1) as nat);
        let row = row_candidates(fp, in_tree, v, in_tree.len());
        let scan = scan_candidates(fp, visited, in_tree, upto);
        lemma_scan_candidates(fp, visited, in_tree, (upto - 1) as nat);
        lemma_row_candidates(fp, in_tree, v, in_tree.len());
        assert forall|j: int| 0 <= j < scan.len() implies is_candidate(
            fp,
            in_tree,
            #[trigger] scan[j],
        ) by {
            if j < before.len() {
                assert(scan[j] == before[j]);
            } else {
                assert(scan[j] == row[j - before.len()]);
            }
        }
        assert forall|a: int, y: int|
            0 <= a < upto && 0 <= y < in_tree.len() && !in_tree[y] implies scan.contains(
            (visited[a], y as usize, #[trigger] edge_weight(fp, visited[a] as int, y) as u64),
        ) by {
            let c = (visited[a], y as usize, edge_weight(fp, visited[a] as int, y) as u64);
            if a < upto - 1 {
                let j = choose|j: int| 0 <= j < before.len() && before[j] == c;
                assert(scan[j] == c);
            } else {
                let j = choose|j: int| 0 <= j < row.len() && row[j] == c;
                assert(scan[before.len() + j] == c);
            }
        }
    }
}

/// One frontier scan: the distance of every pair of a vertex in the tree and
/// a vertex outside it, the vertices in the tree in the order in which they
/// joined, and for each the vertices outside in ascending order.
pub fn frontier_candidates(fps: &Vec<u64>, visited: &Vec<usize>, in_tree: &Vec<bool>) -> (cands:
    Vec<Candidate>)
    requires
        in_tree@.len() == fps@.len(),
        forall|i: int| 0 <= i < visited@.len() ==> (#[trigger] visited@[i]) < fps@.len(),
    ensures
        cands@ == scan_candidates(fps@, visited@, in_tree@, visited@.len()),
        lists_tree(visited@, in_tree@) ==> is_frontier(fps@, in_tree@, cands@),
{
    let n = fps.len();
    let mut cands: Vec<Candidate> = Vec::new();
    let mut i: usize = 0;
    while i < visited.len()
        invariant
            n == fps@.len(),
            in_tree@.len() == n,
            forall|i: int| 0 <= i < visited@.len() ==> (#[trigger] visited@[i]) < n,
            i <= visited@.len(),
            cands@ == scan_candidates(fps@, visited@, in_tree@, i as nat),
        decreases visited@.len() - i,
    {
        let v = visited[i];
        let mut u: usize = 0;
        let ghost done = cands@;
        assert(cands@ =~= done + row_candidates(fps@, in_tree@, v, 0));
        while u < n
            invariant
                n == fps@.len(),
                in_tree@.len() == n,
                v < n,
                u <= n,
                cands@ == done + row_candidates(fps@, in_tree@, v, u as nat),
            decreases n - u,
        {
            if !in_tree[u] {
                let d = hamming_distance(fps[v], fps[u]);
                cands.push((v, u, d));
                assert(cands@ =~= done + row_candidates(fps@, in_tree@, v, (u + 1) as nat));
            }
            u = u + 1;
        }
        i = i + 1;
    }
    proof {
        if lists_tree(visited@, in_tree@) {
            lemma_scan_candidates(fps@, visited@, in_tree@, visited@.len());
            assert forall|x: int, y: int|
                0 <= x < n && 0 <= y < n && in_tree@[x] && !in_tree@[y] implies cands@.contains(
                (x as usize, y as usize, #[trigger] edge_weight(fps@, x, y) as u64),
            ) by {
                assert(visited@.contains(x as usize));
                let a = choose|a: int| 0 <= a < visited@.len() && visited@[a] == x as usize;
                assert(cands@.contains(
                    (visited@[a], y as usize, edge_weight(fps@, visited@[a] as int, y) as u64),
                ));
            }
        }
    }
    cands
}

/// The candidate of least distance, found by rayon's `min_by_key` over a
/// parallel iterator: nothing for no candidates, and otherwise one of the
/// candidates such that none has a smaller distance. Which of several
/// lightest candidates comes back is left open.
#[verifier::external_body]
fn lowest_cost(cands: &Vec<Candidate>) -> (best: Option<Candidate>)
    ensures
        cands@.len() == 0 ==> best is None,
        cands@.len() > 0 ==> best is Some && cands@.contains(best.unwrap()) && forall|i: int|
            0 <= i < cands@.len() ==> best.unwrap().2 <= (#[trigger] cands@[i]).2,
{
    cands.par_iter().min_by_key(|c| c.2).copied()
}

/// Every edge of the partial tree was a lightest edge of the frontier when it
/// joined: it is no heavier than any edge between a vertex that joined before
/// it and one that had not.
pub open spec fn lightest_first(
    fp: Seq<u64>,
    in_tree: Seq<bool>,
    parent: Seq<usize>,
    pos: Seq<int>,
) -> bool {
    forall|c: int, x: int, y: int|
        #![trigger pos[c], edge_weight(fp, x, y)]
        0 < c < fp.len() && in_tree[c] && 0 <= x < fp.len() && 0 <= y < fp.len() && pos[x] < pos[c]
            <= pos[y] ==> edge_weight(fp, c, parent[c] as int) <= edge_weight(fp, x, y)
}

/// A lightest frontier edge from `from` to `to` keeps the partial tree one
/// whose edges were lightest when they joined.
proof fn lemma_lightest_first_extend(
    fp: Seq<u64>,
    visited: Seq<usize>,
    in_tree: Seq<bool>,
    children: Seq<Seq<usize>>,
    parent: Seq<usize>,
    pos: Seq<int>,
    slot: Seq<int>,
    from: usize,
    to: usize,
)
    requires
        partial_tree(fp.len(), visited, in_tree, children, parent, pos, slot),
        lightest_first(fp, in_tree, parent, pos),
        from < fp.len(),
        to < fp.len(),
        in_tree[from as int],
        !in_tree[to as int],
        forall|x: int, y: int|
            0 <= x < fp.len() && 0 <= y < fp.len() && in_tree[x] && !in_tree[y] ==> edge_weight(
                fp,
                from as int,
                to as int,
            ) <= #[trigger] edge_weight(fp, x, y),
    ensures
        lightest_first(
            fp,
            in_tree.update(to as int, true),
            parent.update(to as int, from),
            pos.update(to as int, visited.len() as int),
        ),
{
    let n = fp.len();
    let m = visited.len() as int;
    let in_tree2 = in_tree.update(to as int, true);
    let parent2 = parent.update(to as int, from);
    let pos2 = pos.update(to as int, m);
    lemma_partial_facts(n, visited, in_tree, children, parent, pos, slot);
    lemma_edge_weight_symmetric(fp, from as int, to as int);
    assert forall|c: int, x: int, y: int|
        #![trigger pos2[c], edge_weight(fp, x, y)]
        0 < c < n && in_tree2[c] && 0 <= x < n && 0 <= y < n && pos2[x] < pos2[c]
            <= pos2[y] implies edge_weight(fp, c, parent2[c] as int) <= edge_weight(fp, x, y) by {
        if c == to {
            assert(in_tree[x]);
            assert(!in_tree[y]);
        } else {
            assert(in_tree[c]);
            assert(in_tree[x]);
            assert(pos[x] < pos[c] <= pos[y]);
            assert(edge_weight(fp, c, parent[c] as int) <= edge_weight(fp, x, y));
        }
    }
}

/// A candidate that no candidate of the scan beats is a lightest edge across
/// the frontier.
proof fn lemma_best_is_lightest(fp: Seq<u64>, in_tree: Seq<bool>, cands: Seq<Candidate>, best: Candidate)
    requires
        in_tree.len() == fp.len(),
        is_frontier(fp, in_tree, cands),
        cands.contains(best),
        forall|i: int| 0 <= i < cands.len() ==> best.2 <= (#[trigger] cands[i]).2,
    ensures
        is_candidate(fp, in_tree, best),
        forall|x: int, y: int|
            0 <= x < fp.len() && 0 <= y < fp.len() && in_tree[x] && !in_tree[y] ==> edge_weight(
                fp,
                best.0 as int,
                best.1 as int,
            ) <= #[trigger] edge_weight(fp, x, y),
{
    let j = choose|j: int| 0 <= j < cands.len() && cands[j] == best;
    assert(is_candidate(fp, in_tree, cands[j]));
    assert forall|x: int, y: int|
        0 <= x < fp.len() && 0 <= y < fp.len() && in_tree[x] && !in_tree[y] implies edge_weight(
        fp,
        best.0 as int,
        best.1 as int,
    ) <= #[trigger] edge_weight(fp, x, y) by {
        let c = (x as usize, y as usize, edge_weight(fp, x, y) as u64);
        assert(cands.contains(c));
        let a = choose|a: int| 0 <= a < cands.len() && cands[a] == c;
        assert(best.2 <= cands[a].2);
        crate::perceptual::lemma_hamming_bound(fp[x], fp[y]);
    }
}

/// While a vertex is outside the tree, a frontier scan finds a candidate.
proof fn lemma_frontier_not_empty(fp: Seq<u64>, in_tree: Seq<bool>, cands: Seq<Candidate>)
    requires
        in_tree.len() == fp.len(),
        is_frontier(fp, in_tree, cands),
        fp.len() >= 1,
        in_tree[0],
        exists|y: int| 0 <= y < fp.len() && !in_tree[y],
    ensures
        cands.len() > 0,
{
    let y = choose|y: int| 0 <= y < fp.len() && !in_tree[y];
    assert(cands.contains((0usize, y as usize, edge_weight(fp, 0, y) as u64)));
}

/// Grows the tree from vertex 0 until it spans all vertices. Returns the
/// child list of each vertex and, as ghost values, the parent of each vertex,
/// the order in which the vertices joined, and the place of each vertex among
/// the children of its parent.
#[verifier::rlimit(50)]
pub(crate) fn grow_from_root(fps: &Vec<u64>) -> (out: (
    Vec<Vec<usize>>,
    Ghost<Seq<usize>>,
    Ghost<Seq<int>>,
    Ghost<Seq<int>>,
))
    requires
        fps@.len() >= 1,
    ensures
        out.0@.len() == fps@.len(),
        frontier_grown(fps@, out.1@, out.2@),
        (TreeModel { children: child_lists(out.0@), parent: out.1@, rank: out.2@, slot: out.3@ }).wf(),
{
    let n = fps.len();
    let mut visited_list: Vec<usize> = Vec::new();
    let mut in_tree: Vec<bool> = Vec::new();
    let mut graph: Vec<Vec<usize>> = Vec::new();
    let mut i: usize = 0;
    while i < n
        invariant
            i <= n,
            in_tree@ =~= Seq::new(i as nat, |j: int| false),
            graph@.len() == i,
            forall|v: int| 0 <= v < i ==> (#[trigger] graph@[v])@.len() == 0,
        decreases n - i,
    {
        in_tree.push(false);
        graph.push(Vec::new());
        i = i + 1;
    }
    let ghost mut parent: Seq<usize> = start_parent(n as nat);
    let ghost mut pos: Seq<int> = start_pos(n as nat);
    let ghost mut slot: Seq<int> = start_slot(n as nat);
    visited_list.push(0);
    in_tree.set(0, true);
    proof {
        lemma_partial_start(n as nat, child_lists(graph@));
        assert(visited_list@ =~= seq![0usize]);
        assert(in_tree@ =~= start_in_tree(n as nat));
    }

    while visited_list.len() < n
        invariant
            n == fps@.len(),
            graph@.len() == n,
            partial_tree(n as nat, visited_list@, in_tree@, child_lists(graph@), parent, pos, slot),
            lightest_first(fps@, in_tree@, parent, pos),
        decreases n - visited_list@.len(),
    {
        proof {
            lemma_partial_facts(
                n as nat,
                visited_list@,
                in_tree@,
                child_lists(graph@),
                parent,
                pos,
                slot,
            );
        }
        let cands = frontier_candidates(fps, &visited_list, &in_tree);
        proof {
            lemma_frontier_not_empty(fps@, in_tree@, cands@);
        }
        match lowest_cost(&cands) {
            None => {},
            Some(best) => {
                let vidx = best.0;
                let adj_idx = best.1;
                let ghost old_children = child_lists(graph@);
                proof {
                    lemma_best_is_lightest(fps@, in_tree@, cands@, best);
                    lemma_partial_extend(
                        n as nat,
                        visited_list@,
                        in_tree@,
                        old_children,
                        parent,
                        pos,
                        slot,
                        vidx,
                        adj_idx,
                    );
                    lemma_lightest_first_extend(
                        fps@,
                        visited_list@,
                        in_tree@,
                        old_children,
                        parent,
                        pos,
                        slot,
                        vidx,
                        adj_idx,
                    );
                    slot = slot.update(adj_idx as int, old_children[vidx as int].len() as int);
                    parent = parent.update(adj_idx as int, vidx);
                    pos = pos.update(adj_idx as int, visited_list@.len() as int);
                }
                visited_list.push(adj_idx);
                in_tree.set(adj_idx, true);
                graph[vidx].push(adj_idx);
                proof {
                    assert(child_lists(graph@) =~= old_children.update(
                        vidx as int,
                        old_children[vidx as int].push(adj_idx),
                    ));
                    lemma_partial_facts(
                        n as nat,
                        visited_list@,
                        in_tree@,
                        child_lists(graph@),
                        parent,
                        pos,
                        slot,
                    );
                }
            },
        }
    }
    proof {
        lemma_partial_facts(n as nat, visited_list@, in_tree@, child_lists(graph@), parent, pos, slot);
        lemma_partial_done(n as nat, visited_list@, in_tree@, child_lists(graph@), parent, pos, slot);
        assert(frontier_grown(fps@, parent, pos));
    }
    (graph, Ghost(parent), Ghost(pos), Ghost(slot))
}

} // verus!
