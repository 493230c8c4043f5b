//! A rooted tree under construction: vertex 0 and the vertices that were
//! attached to it so far, each as a new last child of a vertex already there.

use crate::graph::{
    children_by_rank, edge_count_upto, lemma_edge_count_empty, lemma_edge_count_push, TreeModel,
};
use vstd::prelude::*;

verus! {

/// How many entries of `s` are set.
pub open spec fn count_set(s: Seq<bool>) -> nat
    decreases s.len(),
{
    if s.len() == 0 {
        0
    } else {
        count_set(s.drop_last()) + if s.last() {
            1nat
        } else {
            0nat
        }
    }
}

/// No more entries are set than there are; if all are counted, all are set,
/// and otherwise one is not.
pub proof fn lemma_count_set_bound(s: Seq<bool>)
    ensures
        count_set(s) <= s.len(),
        count_set(s) == s.len() ==> forall|i: int| 0 <= i < s.len() ==> s[i],
        count_set(s) < s.len() ==> exists|i: int| 0 <= i < s.len() && !s[i],
    decreases s.len(),
{
    if s.len() > 0 {
        lemma_count_set_bound(s.drop_last());
        if count_set(s) == s.len() {
            assert forall|i: int| 0 <= i < s.len() implies s[i] by {
                if i < s.len() - 1 {
                    assert(s.drop_last()[i] == s[i]);
                }
            }
        }
        if count_set(s) < s.len() {
            if s.last() {
                let i = choose|i: int| 0 <= i < s.len() - 1 && !s.drop_last()[i];
                assert(!s[i]);
            } else {
                assert(!s[s.len() - 1]);
            }
        }
    }
}

/// A sequence whose entries are all set counts them all.
pub proof fn lemma_count_set_all(s: Seq<bool>)
    requires
        forall|i: int| 0 <= i < s.len() ==> s[i],
    ensures
        count_set(s) == s.len(),
    decreases s.len(),
{
    if s.len() > 0 {
        assert forall|i: int| 0 <= i < s.drop_last().len() implies s.drop_last()[i] by {
            assert(s.drop_last()[i] == s[i]);
        }
        lemma_count_set_all(s.drop_last());
    }
}

/// Setting an entry that was not set adds one to the count.
pub proof fn lemma_count_set_update(s: Seq<bool>, i: int)
    requires
        0 <= i < s.len(),
        !s[i],
    ensures
        count_set(s.update(i, true)) == count_set(s) + 1,
    decreases s.len(),
{
    let t = s.update(i, true);
    if i == s.len() - 1 {
        assert(t.drop_last() =~= s.drop_last());
    } else {
        assert(t.drop_last() =~= s.drop_last().update(i, true));
        lemma_count_set_update(s.drop_last(), i);
    }
}

/// Nothing is set in a sequence of `false`.
pub proof fn lemma_count_set_none(n: nat)
    ensures
        count_set(Seq::new(n, |i: int| false)) == 0,
    decreases n,
{
    if n > 0 {
        assert(Seq::new(n, |i: int| false).drop_last() =~= Seq::new((n - 1) as nat, |i: int| false));
        lemma_count_set_none((n - 1) as nat);
    }
}

/// The child lists as sequences.
pub open spec fn child_lists(graph: Seq<Vec<usize>>) -> Seq<Seq<usize>> {
    Seq::new(graph.len(), |v: int| graph[v]@)
}

/// The visited list names the vertices in the tree, and only them.
pub open spec fn lists_tree(visited: Seq<usize>, in_tree: Seq<bool>) -> bool {
    &&& forall|i: int|
        0 <= i < visited.len() ==> (#[trigger] visited[i]) < in_tree.len() && in_tree[visited[i] as int]
    &&& forall|v: int| 0 <= v < in_tree.len() && #[trigger] in_tree[v] ==> visited.contains(v as usize)
}

/// The part of a tree on `n` vertices that stands so far. `visited` lists its
/// vertices in the order in which they joined, `pos` gives each its place in
/// that list, and a vertex outside the tree has position `n`.
#[verifier::opaque]
pub open spec fn partial_tree(
    n: nat,
    visited: Seq<usize>,
    in_tree: Seq<bool>,
    children: Seq<Seq<usize>>,
    parent: Seq<usize>,
    pos: Seq<int>,
    slot: Seq<int>,
) -> bool {
    let m = visited.len();
    &&& in_tree.len() == n
    &&& children.len() == n
    &&& parent.len() == n
    &&& pos.len() == n
    &&& slot.len() == n
    &&& 1 <= m <= n
    &&& count_set(in_tree) == m
    &&& edge_count_upto(children, n) == m - 1
    &&& visited[0] == 0
    &&& forall|i: int|
        0 <= i < m ==> (#[trigger] visited[i]) < n && in_tree[visited[i] as int] && pos[visited[i] as int]
            == i
    &&& forall|v: int|
        0 <= v < n ==> if #[trigger] in_tree[v] {
            0 <= pos[v] < m && visited[pos[v]] == v
        } else {
            pos[v] == n
        }
    &&& forall|v: int|
        0 < v < n && in_tree[v] ==> (#[trigger] parent[v]) < n && in_tree[parent[v] as int]
            && pos[parent[v] as int] < pos[v]
    &&& forall|v: int, i: int|
        0 <= v < n && 0 <= i < children[v].len() ==> {
            let c = #[trigger] children[v][i];
            0 < c < n && in_tree[c as int] && parent[c as int] == v && slot[c as int] == i
        }
    &&& forall|c: int|
        0 < c < n && in_tree[c] ==> 0 <= #[trigger] slot[c] < children[parent[c] as int].len()
            && children[parent[c] as int][slot[c]] == c
    &&& children_by_rank(children, pos)
}

/// Where a tree starts.
pub open spec fn start_in_tree(n: nat) -> Seq<bool> {
    Seq::new(n, |j: int| false).update(0, true)
}

/// Where a tree starts.
pub open spec fn start_parent(n: nat) -> Seq<usize> {
    Seq::new(n, |v: int| 0usize)
}

/// Where a tree starts.
pub open spec fn start_pos(n: nat) -> Seq<int> {
    Seq::new(
        n,
        |v: int|
            if v == 0 {
                0int
            } else {
                n as int
            },
    )
}

/// Where a tree starts.
pub open spec fn start_slot(n: nat) -> Seq<int> {
    Seq::new(n, |v: int| 0int)
}

/// Only vertex 0 in the tree, and no edge: where a tree starts.
pub proof fn lemma_partial_start(n: nat, children: Seq<Seq<usize>>)
    requires
        n >= 1,
        children.len() == n,
        forall|v: int| 0 <= v < children.len() ==> (#[trigger] children[v]).len() == 0,
    ensures
        partial_tree(
            n,
            seq![0usize],
            start_in_tree(n),
            children,
            start_parent(n),
            start_pos(n),
            start_slot(n),
        ),
{
    reveal(partial_tree);
    lemma_count_set_none(n);
    lemma_count_set_update(Seq::new(n, |j: int| false), 0);
    lemma_edge_count_empty(children, n);
}

/// What a loop reads off a partial tree: the visited list names the tree,
/// positions tell the vertices inside from those outside, and while the list
/// is short of all vertices, one is outside the tree.
pub proof fn lemma_partial_facts(
    n: nat,
    visited: Seq<usize>,
    in_tree: Seq<bool>,
    children: Seq<Seq<usize>>,
    parent: Seq<usize>,
    pos: Seq<int>,
    slot: Seq<int>,
)
    requires
        partial_tree(n, visited, in_tree, children, parent, pos, slot),
    ensures
        in_tree.len() == n,
        children.len() == n,
        parent.len() == n,
        pos.len() == n,
        1 <= visited.len() <= n,
        visited.len() == count_set(in_tree),
        visited[0] == 0,
        lists_tree(visited, in_tree),
        in_tree[0],
        visited.len() < n ==> exists|y: int| 0 <= y < n && !in_tree[y],
        visited.len() == n ==> forall|y: int| 0 <= y < n ==> in_tree[y],
        forall|i: int| 0 <= i < visited.len() ==> pos[(#[trigger] visited[i]) as int] == i,
        forall|v: int|
            0 <= v < n ==> if #[trigger] in_tree[v] {
                0 <= pos[v] < visited.len() && visited[pos[v]] == v
            } else {
                pos[v] == n
            },
        forall|v: int|
            0 < v < n && in_tree[v] ==> (#[trigger] parent[v]) < n && in_tree[parent[v] as int]
                && pos[parent[v] as int] < pos[v],
{
    reveal(partial_tree);
    lemma_count_set_bound(in_tree);
    assert forall|v: int| 0 <= v < in_tree.len() && #[trigger] in_tree[v] implies visited.contains(
        v as usize,
    ) by {
        assert(visited[pos[v]] == v as usize);
    }
    assert(in_tree[visited[0] as int]);
}

/// Attaching a vertex outside the tree as the new last child of a vertex
/// inside it extends the partial tree.
pub proof fn lemma_partial_extend(
    n: nat,
    visited: Seq<usize>,
    in_tree: Seq<bool>,
    children: Seq<Seq<usize>>,
    parent: Seq<usize>,
    pos: Seq<int>,
    slot: Seq<int>,
    from: usize,
    to: usize,
)
    requires
        partial_tree(n, visited, in_tree, children, parent, pos, slot),
        from < n,
        to < n,
        in_tree[from as int],
        !in_tree[to as int],
    ensures
        partial_tree(
            n,
            visited.push(to),
            in_tree.update(to as int, true),
            children.update(from as int, children[from as int].push(to)),
            parent.update(to as int, from),
            pos.update(to as int, visited.len() as int),
            slot.update(to as int, children[from as int].len() as int),
        ),
{
    reveal(partial_tree);
    let m = visited.len() as int;
    let visited2 = visited.push(to);
    let in_tree2 = in_tree.update(to as int, true);
    let children2 = children.update(from as int, children[from as int].push(to));
    let parent2 = parent.update(to as int, from);
    let pos2 = pos.update(to as int, m);
    let slot2 = slot.update(to as int, children[from as int].len() as int);
    lemma_count_set_update(in_tree, to as int);
    lemma_count_set_bound(in_tree);
    lemma_edge_count_push(children, from as int, to, n);
    assert(to != 0);
    assert forall|i: int| 0 <= i < m + 1 implies (#[trigger] visited2[i]) < n && in_tree2[visited2[i] as int]
        && pos2[visited2[i] as int] == i by {
        if i < m {
            assert(visited[i] != to);
        }
    }
    assert forall|v: int| 0 <= v < n implies if #[trigger] in_tree2[v] {
        0 <= pos2[v] < m + 1 && visited2[pos2[v]] == v
    } else {
        pos2[v] == n
    } by {
        if v != to && in_tree[v] {
            assert(visited[pos[v]] == v);
        }
    }
    assert forall|v: int| 0 < v < n && in_tree2[v] implies (#[trigger] parent2[v]) < n
        && in_tree2[parent2[v] as int] && pos2[parent2[v] as int] < pos2[v] by {
        if v != to {
            assert(in_tree[v]);
            assert(parent[v] != to);
        }
    }
    assert forall|v: int, i: int| 0 <= v < n && 0 <= i < children2[v].len() implies {
        let c = #[trigger] children2[v][i];
        0 < c < n && in_tree2[c as int] && parent2[c as int] == v && slot2[c as int] == i
    } by {
        if v == from && i == children[v].len() {
        } else {
            let c = children[v][i];
            assert(in_tree[c as int]);
        }
    }
    assert forall|c: int| 0 < c < n && in_tree2[c] implies 0 <= #[trigger] slot2[c]
        < children2[parent2[c] as int].len() && children2[parent2[c] as int][slot2[c]] == c by {
        if c != to {
            assert(in_tree[c]);
            assert(0 <= slot[c] < children[parent[c] as int].len());
        }
    }
    assert forall|v: int, i: int, j: int|
        0 <= v < children2.len() && 0 <= i < j < children2[v].len() implies pos2[(
    #[trigger] children2[v][i]) as int] < pos2[(#[trigger] children2[v][j]) as int] by {
        // a child that was there joined before the one that joins now
        let c = children[v][i];
        assert(children2[v][i] == c);
        assert(in_tree[c as int]);
        if v == from && j == children[v].len() {
            assert(children2[v][j] == to);
        } else {
            let d = children[v][j];
            assert(children2[v][j] == d);
            assert(in_tree[d as int]);
        }
    }
}

/// A partial tree that holds every vertex is a tree, ranked by the order in
/// which the vertices joined, and no two vertices joined at the same time.
pub proof fn lemma_partial_done(
    n: nat,
    visited: Seq<usize>,
    in_tree: Seq<bool>,
    children: Seq<Seq<usize>>,
    parent: Seq<usize>,
    pos: Seq<int>,
    slot: Seq<int>,
)
    requires
        partial_tree(n, visited, in_tree, children, parent, pos, slot),
        visited.len() == n,
        n <= usize::MAX,
    ensures
        (TreeModel { children, parent, rank: pos, slot }).wf(),
        pos[0] == 0,
        forall|u: int, v: int|
            0 <= u < n && 0 <= v < n && u != v ==> #[trigger] pos[u] != #[trigger] pos[v],
{
    reveal(partial_tree);
    lemma_count_set_bound(in_tree);
    assert forall|u: int, v: int| 0 <= u < n && 0 <= v < n && u != v implies #[trigger] pos[u]
        != #[trigger] pos[v] by {
        assert(in_tree[u] && in_tree[v]);
    }
    assert forall|v: int| 0 < v < n implies (#[trigger] parent[v]) < n && 0 <= pos[parent[v] as int]
        < pos[v] by {
        assert(in_tree[v]);
        assert(in_tree[parent[v] as int]);
    }
    assert forall|v: int| 0 <= v < n implies 0 <= #[trigger] pos[v] < n by {
        assert(in_tree[v]);
    }
    assert(in_tree[0]);
    assert(visited[pos[0]] == 0);
    assert(pos[visited[0] as int] == 0);
    assert forall|c: int| 0 < c < n implies 0 <= #[trigger] slot[c] < children[parent[c] as int].len()
        && children[parent[c] as int][slot[c]] == c by {
        assert(in_tree[c]);
    }
}

} // verus!
