//! The rooted spanning tree and its preorder walk with an explicit stack.

use crate::kruskal::{
    children_in_kept_order, grow_forest, lemma_linking_tree_is_saturated, orient_from_root,
};
use crate::prim::{frontier_grown, grow_from_root, lemma_frontier_grown_is_saturated};
use crate::perceptual::hamming_distance;
use crate::spanning::{
    chain, edge_weight, is_minimum_spanning_tree, lemma_edge_weight_symmetric,
    lemma_minimum_at_most_chain, lemma_saturated_is_minimum, ranked, tree_weight,
    tree_weight_upto,
};
use crate::{collect_fingerprints, fingerprints, ImageEntry};
use vstd::prelude::*;

pub use crate::tour::iteratively_improve_tour;

verus! {

/// One entry of the traversal stack: a vertex, how many of its children have
/// been scheduled, how many it has, and whether it was emitted.
#[derive(Debug)]
pub struct StackFrame {
    pub idx: usize,
    pub edge_idx: usize,
    pub len: usize,
    pub printed: bool,
}

/// The mathematical content of a rooted tree on the vertices `0..n`: the
/// ordered children of each vertex, the parent of each vertex, a ranking
/// under which children come after their parent, and the position of each
/// vertex among its parent's children.
pub struct TreeModel {
    pub children: Seq<Seq<usize>>,
    pub parent: Seq<usize>,
    pub rank: Seq<int>,
    pub slot: Seq<int>,
}

/// How many children the vertices `0..m` have between them.
pub open spec fn edge_count_upto(children: Seq<Seq<usize>>, m: nat) -> nat
    decreases m,
{
    if m == 0 {
        0
    } else {
        edge_count_upto(children, (m - 1) as nat) + children[m - 1].len()
    }
}

/// Vertices without children have no edges between them.
pub proof fn lemma_edge_count_empty(children: Seq<Seq<usize>>, m: nat)
    requires
        m <= children.len(),
        forall|v: int| 0 <= v < m ==> (#[trigger] children[v]).len() == 0,
    ensures
        edge_count_upto(children, m) == 0,
    decreases m,
{
    if m > 0 {
        lemma_edge_count_empty(children, (m - 1) as nat);
    }
}

/// The first vertices have no more children than all vertices.
pub proof fn lemma_edge_count_bound(children: Seq<Seq<usize>>, m: nat, n: nat)
    requires
        m < n <= children.len(),
    ensures
        edge_count_upto(children, m) + children[m as int].len() <= edge_count_upto(children, n),
    decreases n,
{
    if m + 1 < n {
        lemma_edge_count_bound(children, m, (n - 1) as nat);
    }
}

/// One more child for vertex `v` is one more edge.
pub proof fn lemma_edge_count_push(children: Seq<Seq<usize>>, v: int, c: usize, m: nat)
    requires
        0 <= v < children.len(),
        m <= children.len(),
    ensures
        edge_count_upto(children.update(v, children[v].push(c)), m) == edge_count_upto(children, m)
            + if v < m {
            1nat
        } else {
            0nat
        },
    decreases m,
{
    if m > 0 {
        lemma_edge_count_push(children, v, c, (m - 1) as nat);
    }
}

/// The children of every vertex stand in ascending order of rank: in the
/// order in which they joined the tree.
pub open spec fn children_by_rank(children: Seq<Seq<usize>>, rank: Seq<int>) -> bool {
    forall|v: int, i: int, j: int|
        0 <= v < children.len() && 0 <= i < j < children[v].len() ==> rank[(
        #[trigger] children[v][i]) as int] < rank[(#[trigger] children[v][j]) as int]
}

impl TreeModel {
    /// Number of vertices.
    pub open spec fn len(self) -> nat {
        self.children.len()
    }

    /// Number of edges.
    pub open spec fn edge_count(self) -> nat {
        edge_count_upto(self.children, self.len())
    }

    /// The child lists and the parent sequence describe the same tree, rooted
    /// at vertex 0: each vertex but 0 is the child of exactly one vertex, in
    /// exactly one place, no vertex is its own ancestor, there is one edge
    /// less than there are vertices, and the children of a vertex stand in
    /// the order of their ranks.
    pub open spec fn wf(self) -> bool {
        &&& 1 <= self.len() <= usize::MAX
        &&& self.edge_count() == self.len() - 1
        &&& self.parent.len() == self.len()
        &&& self.slot.len() == self.len()
        &&& ranked(self.parent, self.rank)
        &&& forall|v: int| 0 <= v < self.len() ==> 0 <= #[trigger] self.rank[v] < self.len()
        &&& forall|v: int, i: int|
            0 <= v < self.len() && 0 <= i < self.children[v].len() ==> {
                let c = #[trigger] self.children[v][i];
                0 < c < self.len() && self.parent[c as int] == v && self.slot[c as int] == i
            }
        &&& forall|c: int|
            0 < c < self.len() ==> 0 <= #[trigger] self.slot[c] < self.children[self.parent[c] as int].len()
                && self.children[self.parent[c] as int][self.slot[c]] == c
        &&& children_by_rank(self.children, self.rank)
    }

    /// The vertices of the subtree under `v` in preorder: `v`, then the
    /// subtrees of its children in their fixed order.
    pub open spec fn preorder_from(self, v: int) -> Seq<usize>
        decreases self.len() - self.rank[v], self.children[v].len() + 1,
        when self.wf() && 0 <= v < self.len()
    {
        seq![v as usize] + self.preorder_rest(v, 0)
    }

    /// The subtrees of the children of `v` from the `i`-th child on, in preorder.
    pub open spec fn preorder_rest(self, v: int, i: int) -> Seq<usize>
        decreases self.len() - self.rank[v], self.children[v].len() - i,
        when self.wf() && 0 <= v < self.len() && 0 <= i <= self.children[v].len()
    {
        if i >= self.children[v].len() {
            Seq::empty()
        } else {
            self.preorder_from(self.children[v][i] as int) + self.preorder_rest(v, i + 1)
        }
    }

    /// The preorder sequence of the whole tree.
    pub open spec fn preorder(self) -> Seq<usize> {
        self.preorder_from(0)
    }

    /// Vertex `a` is `x` or an ancestor of `x`.
    pub open spec fn is_ancestor(self, a: int, x: int) -> bool
        decreases self.rank[x],
        when self.wf() && 0 <= x < self.len()
    {
        x == a || (x != 0 && self.is_ancestor(a, self.parent[x] as int))
    }
}

/// An ancestor of a vertex is a vertex and ranks no higher; so no vertex is
/// an ancestor of its own parent.
pub proof fn lemma_ancestor_rank(t: TreeModel, a: int, x: int)
    requires
        t.wf(),
        0 <= x < t.len(),
        t.is_ancestor(a, x),
    ensures
        0 <= a < t.len(),
        t.rank[a] <= t.rank[x],
    decreases t.rank[x],
{
    if x != a {
        lemma_ancestor_rank(t, a, t.parent[x] as int);
    }
}

/// Every vertex of a tree is the root or one of its descendants.
pub proof fn lemma_root_is_ancestor(t: TreeModel, x: int)
    requires
        t.wf(),
        0 <= x < t.len(),
    ensures
        t.is_ancestor(0, x),
    decreases t.rank[x],
{
    if x != 0 {
        lemma_root_is_ancestor(t, t.parent[x] as int);
    }
}

/// What descends from a child of `v` descends from `v`.
proof fn lemma_ancestor_via_child(t: TreeModel, c: int, x: int)
    requires
        t.wf(),
        0 < c < t.len(),
        0 <= x < t.len(),
        t.is_ancestor(c, x),
    ensures
        t.is_ancestor(t.parent[c] as int, x),
    decreases t.rank[x],
{
    let v = t.parent[c] as int;
    if x == c {
        assert(t.is_ancestor(v, v));
    } else {
        lemma_ancestor_via_child(t, c, t.parent[x] as int);
    }
}

/// What descends from `v` and is not `v` descends from one of its children.
proof fn lemma_descendant_has_branch(t: TreeModel, v: int, x: int) -> (j: int)
    requires
        t.wf(),
        0 <= v < t.len(),
        0 <= x < t.len(),
        t.is_ancestor(v, x),
        x != v,
    ensures
        0 <= j < t.children[v].len(),
        t.is_ancestor(t.children[v][j] as int, x),
    decreases t.rank[x],
{
    let p = t.parent[x] as int;
    if p == v {
        assert(t.is_ancestor(x, x));
        t.slot[x]
    } else {
        lemma_descendant_has_branch(t, v, p)
    }
}

/// No vertex descends from two different children of one vertex.
proof fn lemma_branches_disjoint(t: TreeModel, a: int, b: int, x: int)
    requires
        t.wf(),
        0 < a < t.len(),
        0 < b < t.len(),
        t.parent[a] == t.parent[b],
        0 <= x < t.len(),
        t.is_ancestor(a, x),
        t.is_ancestor(b, x),
    ensures
        a == b,
    decreases t.rank[x],
{
    if x == a {
        if a != b {
            lemma_ancestor_rank(t, b, t.parent[a] as int);
        }
    } else if x == b {
        lemma_ancestor_rank(t, a, t.parent[b] as int);
    } else {
        lemma_branches_disjoint(t, a, b, t.parent[x] as int);
    }
}

/// The preorder of the subtree under `v` holds each descendant of `v` once
/// and nothing else.
proof fn lemma_preorder_from_holds_subtree(t: TreeModel, v: int)
    requires
        t.wf(),
        0 <= v < t.len(),
    ensures
        t.preorder_from(v).no_duplicates(),
        t.preorder_from(v).len() >= 1,
        t.preorder_from(v)[0] == v,
        forall|x: usize| #[trigger]
            t.preorder_from(v).contains(x) <==> x < t.len() && t.is_ancestor(v, x as int),
    decreases t.len() - t.rank[v], t.children[v].len() + 1,
{
    let rest = t.preorder_rest(v, 0);
    let head = seq![v as usize];
    let whole = t.preorder_from(v);
    lemma_preorder_rest_holds_branches(t, v, 0);
    assert forall|i: int, j: int| 0 <= i < head.len() && 0 <= j < rest.len() implies head[i]
        != rest[j] by {
        if head[i] == rest[j] {
            assert(rest.contains(v as usize));
            let b = choose|b: int|
                0 <= b < t.children[v].len() && t.is_ancestor(t.children[v][b] as int, v);
            lemma_ancestor_rank(t, t.children[v][b] as int, v);
        }
    }
    vstd::seq_lib::lemma_no_dup_in_concat(head, rest);
    assert forall|x: usize| whole.contains(x) <==> x < t.len() && t.is_ancestor(
        v,
        x as int,
    ) by {
        if whole.contains(x) {
            let i = choose|i: int| 0 <= i < whole.len() && whole[i] == x;
            if i >= 1 {
                assert(rest[i - 1] == x);
                assert(rest.contains(x));
                let b = choose|b: int|
                    0 <= b < t.children[v].len() && t.is_ancestor(
                        t.children[v][b] as int,
                        x as int,
                    );
                lemma_ancestor_via_child(t, t.children[v][b] as int, x as int);
            }
        }
        if x < t.len() && t.is_ancestor(v, x as int) {
            if x == v {
                assert(whole[0] == x);
            } else {
                let b = lemma_descendant_has_branch(t, v, x as int);
                assert(rest.contains(x));
                let i = choose|i: int| 0 <= i < rest.len() && rest[i] == x;
                assert(whole[i + 1] == x);
            }
        }
    }
}

/// The preorder of the subtrees under the children of `v` from the `i`-th on
/// holds each descendant of these children once and nothing else.
proof fn lemma_preorder_rest_holds_branches(t: TreeModel, v: int, i: int)
    requires
        t.wf(),
        0 <= v < t.len(),
        0 <= i <= t.children[v].len(),
    ensures
        t.preorder_rest(v, i).no_duplicates(),
        forall|x: usize| #[trigger]
            t.preorder_rest(v, i).contains(x) <==> x < t.len() && exists|b: int|
                i <= b < t.children[v].len() && t.is_ancestor(
                    #[trigger] t.children[v][b] as int,
                    x as int,
                ),
    decreases t.len() - t.rank[v], t.children[v].len() - i,
{
    let whole = t.preorder_rest(v, i);
    if i < t.children[v].len() {
        let c = t.children[v][i] as int;
        let first = t.preorder_from(c);
        let later = t.preorder_rest(v, i + 1);
        lemma_preorder_from_holds_subtree(t, c);
        lemma_preorder_rest_holds_branches(t, v, i + 1);
        assert forall|a: int, b: int| 0 <= a < first.len() && 0 <= b < later.len() implies first[a]
            != later[b] by {
            if first[a] == later[b] {
                let x = first[a];
                assert(first.contains(x));
                assert(later.contains(x));
                let j = choose|j: int|
                    i + 1 <= j < t.children[v].len() && t.is_ancestor(
                        #[trigger] t.children[v][j] as int,
                        x as int,
                    );
                lemma_branches_disjoint(t, c, t.children[v][j] as int, x as int);
            }
        }
        vstd::seq_lib::lemma_no_dup_in_concat(first, later);
        assert forall|x: usize|
            whole.contains(x) <==> x < t.len() && exists|b: int|
                i <= b < t.children[v].len() && t.is_ancestor(
                    #[trigger] t.children[v][b] as int,
                    x as int,
                ) by {
            if whole.contains(x) {
                let k = choose|k: int| 0 <= k < whole.len() && whole[k] == x;
                if k < first.len() {
                    assert(first[k] == x);
                    assert(first.contains(x));
                    assert(t.is_ancestor(t.children[v][i] as int, x as int));
                } else {
                    assert(later[k - first.len()] == x);
                    assert(later.contains(x));
                    let j = choose|j: int|
                        i + 1 <= j < t.children[v].len() && t.is_ancestor(
                            #[trigger] t.children[v][j] as int,
                            x as int,
                        );
                    assert(t.is_ancestor(t.children[v][j] as int, x as int));
                }
            }
            if x < t.len() && exists|b: int|
                i <= b < t.children[v].len() && t.is_ancestor(
                    #[trigger] t.children[v][b] as int,
                    x as int,
                ) {
                let b = choose|b: int|
                    i <= b < t.children[v].len() && t.is_ancestor(
                        #[trigger] t.children[v][b] as int,
                        x as int,
                    );
                if b == i {
                    assert(first.contains(x));
                    let k = choose|k: int| 0 <= k < first.len() && first[k] == x;
                    assert(whole[k] == x);
                } else {
                    assert(later.contains(x));
                    let k = choose|k: int| 0 <= k < later.len() && later[k] == x;
                    assert(whole[first.len() + k] == x);
                }
            }
        }
    }
}

/// The preorder sequence of a tree starts at the root and holds every vertex
/// exactly once.
pub proof fn lemma_preorder_is_permutation(t: TreeModel)
    requires
        t.wf(),
    ensures
        t.preorder().len() == t.len(),
        t.preorder()[0] == 0,
        t.preorder().no_duplicates(),
        forall|i: int| 0 <= i < t.preorder().len() ==> #[trigger] t.preorder()[i] < t.len(),
        forall|v: usize| v < t.len() ==> t.preorder().contains(v),
{
    let p = t.preorder_from(0);
    let n = t.len();
    lemma_preorder_from_holds_subtree(t, 0);
    assert forall|v: usize| v < n implies p.contains(v) by {
        lemma_root_is_ancestor(t, v as int);
    }
    assert forall|i: int| 0 <= i < p.len() implies #[trigger] p[i] < n by {
        let x = p[i];
        assert(p.contains(x));
    }
    p.unique_seq_to_set();
    let ids = vstd::set_lib::set_int_range(0, n as int);
    let narrow = |i: int| i as usize;
    vstd::set_lib::lemma_int_range(0, n as int);
    assert forall|v: usize| p.to_set().contains(v) <==> ids.map(narrow).contains(v) by {
        if p.to_set().contains(v) {
            assert(p.contains(v));
            assert(ids.contains(v as int) && narrow(v as int) == v);
        }
        if ids.map(narrow).contains(v) {
            let i = choose|i: int| ids.contains(i) && narrow(i) == v;
            assert(p.contains(v));
        }
    }
    assert(p.to_set() =~= ids.map(narrow));
    assert(vstd::relations::injective_on(narrow, ids)) by {
        assert forall|a: int, b: int|
            ids.contains(a) && ids.contains(b) && #[trigger] narrow(a) == #[trigger] narrow(
                b,
            ) implies a == b by {
            lemma_ancestor_rank(t, 0, 0);
        }
    }
    vstd::set_lib::lemma_map_size(ids, p.to_set(), narrow);
}

/// Vertex `c` is among the children that a walk over the child lists has
/// passed when it stands before child `i` of vertex `v`.
pub open spec fn passed(t: TreeModel, v: int, i: int, c: int) -> bool {
    0 < c < t.len() && (t.parent[c] < v || (t.parent[c] == v && t.slot[c] < i))
}

/// Sum of the weights of the edges to those of the vertices `1..m` that a
/// walk over the child lists has passed when it stands before child `i` of
/// vertex `v`.
pub open spec fn passed_weight(fp: Seq<u64>, t: TreeModel, v: int, i: int, m: nat) -> nat
    decreases m,
{
    if m <= 1 {
        0
    } else {
        passed_weight(fp, t, v, i, (m - 1) as nat) + if passed(t, v, i, m - 1) {
            edge_weight(fp, m - 1, t.parent[m - 1] as int)
        } else {
            0
        }
    }
}

/// Passing one more child adds the weight of the edge to it.
proof fn lemma_pass_child(fp: Seq<u64>, t: TreeModel, v: int, i: int, m: nat)
    requires
        t.wf(),
        0 <= v < t.len(),
        0 <= i < t.children[v].len(),
        m <= t.len(),
    ensures
        passed_weight(fp, t, v, i + 1, m) == passed_weight(fp, t, v, i, m) + if t.children[v][i]
            < m {
            edge_weight(fp, t.children[v][i] as int, v)
        } else {
            0
        },
    decreases m,
{
    if m > 1 {
        lemma_pass_child(fp, t, v, i, (m - 1) as nat);
        let c = m - 1;
        let next = t.children[v][i] as int;
        if c == next {
            assert(!passed(t, v, i, c));
            assert(passed(t, v, i + 1, c));
        } else {
            assert(passed(t, v, i + 1, c) == passed(t, v, i, c));
        }
    }
}

/// Having passed all children of a vertex is standing before the first
/// child of the next vertex.
proof fn lemma_pass_vertex(fp: Seq<u64>, t: TreeModel, v: int, m: nat)
    requires
        t.wf(),
        0 <= v < t.len(),
        m <= t.len(),
    ensures
        passed_weight(fp, t, v + 1, 0, m) == passed_weight(
            fp,
            t,
            v,
            t.children[v].len() as int,
            m,
        ),
    decreases m,
{
    if m > 1 {
        lemma_pass_vertex(fp, t, v, (m - 1) as nat);
    }
}

/// Before the first child of vertex 0 nothing is passed, and after the last
/// vertex everything is.
proof fn lemma_pass_ends(fp: Seq<u64>, t: TreeModel, m: nat)
    requires
        t.wf(),
        m <= t.len(),
    ensures
        passed_weight(fp, t, 0, 0, m) == 0,
        passed_weight(fp, t, t.len() as int, 0, m) == tree_weight_upto(fp, t.parent, m),
    decreases m,
{
    if m > 1 {
        lemma_pass_ends(fp, t, (m - 1) as nat);
    }
}

/// A frame fits the tree: its vertex exists, its child count is that of the
/// vertex, and its cursor is within the children.
pub open spec fn frame_ok(t: TreeModel, f: StackFrame) -> bool {
    &&& f.idx < t.len()
    &&& f.len == t.children[f.idx as int].len()
    &&& f.edge_idx <= f.len
}

/// The frame `above` lies on the frame `below`: it is the frame of the child
/// that `below` scheduled last.
pub open spec fn lies_on(t: TreeModel, below: StackFrame, above: StackFrame) -> bool {
    &&& below.printed
    &&& below.edge_idx >= 1
    &&& above.idx == t.children[below.idx as int][below.edge_idx - 1]
}

/// Every frame of the stack fits the tree, the lowest frame is that of the
/// root, and every other frame lies on the frame below it: the stack holds a
/// path from the root down the tree.
pub open spec fn stack_ok(t: TreeModel, s: Seq<StackFrame>) -> bool {
    &&& forall|i: int| 0 <= i < s.len() ==> frame_ok(t, #[trigger] s[i])
    &&& s.len() > 0 ==> s[0].idx == 0
    &&& forall|i: int| 0 <= i < s.len() - 1 ==> lies_on(t, #[trigger] s[i], s[i + 1])
}

/// How far vertex `v` is from the root.
pub open spec fn depth(t: TreeModel, v: int) -> nat
    decreases t.rank[v],
    when t.wf() && 0 <= v < t.len()
{
    if v == 0 {
        0
    } else {
        depth(t, t.parent[v] as int) + 1
    }
}

/// No vertex is further from the root than its rank.
pub proof fn lemma_depth_bound(t: TreeModel, v: int)
    requires
        t.wf(),
        0 <= v < t.len(),
    ensures
        depth(t, v) <= t.rank[v],
        depth(t, v) < t.len(),
    decreases t.rank[v],
{
    if v != 0 {
        lemma_depth_bound(t, t.parent[v] as int);
    }
}

/// The traversal stack is as high as its top vertex is deep, and one more:
/// it never holds more frames than the tree has vertices.
pub proof fn lemma_stack_depth(t: TreeModel, s: Seq<StackFrame>)
    requires
        t.wf(),
        stack_ok(t, s),
        s.len() > 0,
    ensures
        s.len() == depth(t, s.last().idx as int) + 1,
        s.len() <= t.len(),
    decreases s.len(),
{
    lemma_depth_bound(t, s.last().idx as int);
    if s.len() > 1 {
        let rest = s.drop_last();
        assert forall|i: int| 0 <= i < rest.len() - 1 implies lies_on(
            t,
            #[trigger] rest[i],
            rest[i + 1],
        ) by {
            assert(lies_on(t, s[i], s[i + 1]));
        }
        lemma_stack_depth(t, rest);
        assert(lies_on(t, s[s.len() - 2], s[s.len() - 2 + 1]));
        assert(frame_ok(t, s[s.len() - 2]));
    }
}

/// What a frame still owes to the output: its vertex unless emitted, then the
/// subtrees of the children it has not scheduled.
pub open spec fn frame_pending(t: TreeModel, f: StackFrame) -> Seq<usize> {
    (if f.printed {
        Seq::<usize>::empty()
    } else {
        seq![f.idx]
    }) + t.preorder_rest(f.idx as int, f.edge_idx as int)
}

/// What a stack still owes to the output, the top frame first. The top of the
/// stack is its last element.
pub open spec fn stack_pending(t: TreeModel, s: Seq<StackFrame>) -> Seq<usize>
    decreases s.len(),
{
    if s.len() == 0 {
        Seq::empty()
    } else {
        frame_pending(t, s.last()) + stack_pending(t, s.drop_last())
    }
}

/// An upper bound on the number of steps the traversal can still take.
pub open spec fn steps_bound(t: TreeModel, s: Seq<StackFrame>) -> nat {
    if s.len() == 0 {
        0
    } else {
        (2 * stack_pending(t, s).len() + s.len() - if s.last().printed {
            0int
        } else {
            2int
        }) as nat
    }
}

/// What a step of the traversal hands out: the vertex of the top frame,
/// unless that was emitted before.
pub open spec fn step_output(s: Seq<StackFrame>) -> Option<usize> {
    if s.last().printed {
        None
    } else {
        Some(s.last().idx)
    }
}

/// The stack after a step of the traversal: the top frame is gone if it has
/// no child left to schedule; otherwise it has moved on by one child and is
/// marked as emitted, and a fresh frame for that child lies on top of it.
pub open spec fn after_step(t: TreeModel, s: Seq<StackFrame>) -> Seq<StackFrame> {
    if s.len() == 0 {
        s
    } else if s.last().edge_idx >= s.last().len {
        s.drop_last()
    } else {
        let top = s.last();
        let child = t.children[top.idx as int][top.edge_idx as int];
        s.drop_last().push(
            StackFrame {
                idx: top.idx,
                edge_idx: (top.edge_idx + 1) as usize,
                len: top.len,
                printed: true,
            },
        ).push(
            StackFrame {
                idx: child,
                edge_idx: 0,
                len: t.children[child as int].len() as usize,
                printed: false,
            },
        )
    }
}

/// The vertex a step emitted, as a sequence of length at most one.
pub open spec fn emitted(e: Option<usize>) -> Seq<usize> {
    match e {
        Some(v) => seq![v],
        None => Seq::empty(),
    }
}

/// A minimum spanning tree over fingerprints under the Hamming distance,
/// rooted at vertex 0 and stored as the ordered child list of each vertex.
pub struct HammingMST {
    graph: Vec<Vec<usize>>,
    root: usize,
    parent: Ghost<Seq<usize>>,
    rank: Ghost<Seq<int>>,
    slot: Ghost<Seq<int>>,
}

impl View for HammingMST {
    type V = TreeModel;

    closed spec fn view(&self) -> TreeModel {
        TreeModel {
            children: Seq::new(self.graph@.len(), |v: int| self.graph@[v]@),
            parent: self.parent@,
            rank: self.rank@,
            slot: self.slot@,
        }
    }
}

/// The preorder walk of a tree, one step at a time. A step hands out a vertex
/// or nothing; the vertices handed out, in order, are the preorder sequence.
pub struct MSTIterator<'a> {
    tree: &'a HammingMST,
    stack: Vec<StackFrame>,
}

impl<'a> MSTIterator<'a> {
    #[verifier::type_invariant]
    spec fn inv(&self) -> bool {
        stack_ok(self.tree@, self.stack@)
    }

    /// The tree that is walked.
    pub closed spec fn model(&self) -> TreeModel {
        self.tree@
    }

    /// The traversal stack, its top last.
    pub closed spec fn frames(&self) -> Seq<StackFrame> {
        self.stack@
    }

    /// The vertices that the walk has yet to hand out, in order.
    pub open spec fn remaining(&self) -> Seq<usize> {
        stack_pending(self.model(), self.frames())
    }

    /// An upper bound on the number of steps that are left; zero exactly when
    /// the walk is over.
    pub open spec fn steps_left(&self) -> nat {
        steps_bound(self.model(), self.frames())
    }

    /// Starts a walk at the root of `g`.
    pub fn new(g: &'a HammingMST) -> (it: Self)
        ensures
            it.model() == g@,
            it.remaining() == g@.preorder(),
            it.frames() == seq![
                StackFrame {
                    idx: 0,
                    edge_idx: 0,
                    len: g@.children[0].len() as usize,
                    printed: false,
                },
            ],
    {
        proof {
            use_type_invariant(g);
        }
        let root = g.root;
        let mut stack: Vec<StackFrame> = Vec::new();
        stack.push(StackFrame { idx: root, edge_idx: 0, len: g.graph[root].len(), printed: false });
        assert(stack@.drop_last() =~= Seq::<StackFrame>::empty());
        assert(stack_pending(g@, stack@.drop_last()) == Seq::<usize>::empty());
        assert(frame_pending(g@, stack@.last()) == g@.preorder_from(0));
        assert(stack_pending(g@, stack@) =~= g@.preorder());
        assert(stack@ =~= seq![
            StackFrame {
                idx: 0,
                edge_idx: 0,
                len: g@.children[0].len() as usize,
                printed: false,
            },
        ]);
        MSTIterator { tree: g, stack }
    }

    /// Takes one step. Returns `None` when the walk is over, and otherwise
    /// the vertex that this step hands out, if it hands one out.
    pub fn next(&mut self) -> (r: Option<Option<usize>>)
        ensures
            final(self).model() == old(self).model(),
            final(self).frames() == after_step(old(self).model(), old(self).frames()),
            r == if old(self).frames().len() == 0 {
                None
            } else {
                Some(step_output(old(self).frames()))
            },
            r matches Some(e) ==> old(self).remaining() == emitted(e) + final(self).remaining()
                && final(self).steps_left() < old(self).steps_left(),
            stack_ok(final(self).model(), final(self).frames()),
            final(self).frames().len() <= final(self).model().len(),
    {
        proof {
            use_type_invariant(&*self);
            use_type_invariant(self.tree);
        }
        let tree = self.tree;
        let mut stack: Vec<StackFrame> = Vec::new();
        core::mem::swap(&mut self.stack, &mut stack);
        let r = tree.step(&mut stack);
        core::mem::swap(&mut self.stack, &mut stack);
        proof {
            if self.stack@.len() > 0 {
                lemma_stack_depth(self.tree@, self.stack@);
            }
        }
        r
    }
}

impl HammingMST {
    #[verifier::type_invariant]
    spec fn inv(&self) -> bool {
        self.root == 0 && self@.wf()
    }

    /// Puts a tree together from its child lists and the facts that make them a tree.
    pub(crate) fn assemble(
        graph: Vec<Vec<usize>>,
        parent: Ghost<Seq<usize>>,
        rank: Ghost<Seq<int>>,
        slot: Ghost<Seq<int>>,
    ) -> (tree: Self)
        requires
            (TreeModel {
                children: Seq::new(graph@.len(), |v: int| graph@[v]@),
                parent: parent@,
                rank: rank@,
                slot: slot@,
            }).wf(),
        ensures
            tree@ == (TreeModel {
                children: Seq::new(graph@.len(), |v: int| graph@[v]@),
                parent: parent@,
                rank: rank@,
                slot: slot@,
            }),
    {
        HammingMST { graph, root: 0, parent, rank, slot }
    }

    /// Builds a minimum spanning tree over the fingerprints of `nodes` by
    /// taking the pairs in ascending order of distance and keeping each that
    /// joins two different sets of a partition. The kept edges are then
    /// directed away from vertex 0, and the children of a vertex stand in
    /// the order in which the edges to them were kept. Fewer than two entries
    /// have no tree.
    pub fn new(nodes: &[ImageEntry]) -> (tree: Option<Self>)
        ensures
            nodes@.len() <= 1 <==> tree is None,
            tree matches Some(t) ==> t@.wf() && t@.len() == nodes@.len()
                && is_minimum_spanning_tree(fingerprints(nodes@), t@.parent),
            tree matches Some(t) ==> t@.edge_count() == nodes@.len() - 1 && tree_weight(
                fingerprints(nodes@),
                t@.parent,
            ) <= tree_weight(fingerprints(nodes@), chain(nodes@.len())),
            tree matches Some(t) ==> children_in_kept_order(fingerprints(nodes@), t@.children),
    {
        if nodes.len() <= 1 {
            return None;
        }
        let fps = collect_fingerprints(nodes);
        let (edges, adj, via) = grow_forest(&fps);
        let (graph, parent, rank, slot) = orient_from_root(&fps, &edges, &adj, via);
        proof {
            lemma_linking_tree_is_saturated(fps@, edges@, parent@, rank@);
            lemma_saturated_is_minimum(fps@, parent@, rank@);
            lemma_minimum_at_most_chain(fps@, parent@);
        }
        Some(Self::assemble(graph, parent, rank, slot))
    }

    /// Builds a minimum spanning tree over the fingerprints of `nodes` by
    /// growing it from vertex 0 along a lightest edge of the frontier at each
    /// step. The rank of a vertex is its place in the order in which the
    /// vertices joined, and the children of a vertex stand in that order.
    /// Fewer than two entries have no tree.
    pub fn new_prims(nodes: &[ImageEntry]) -> (tree: Option<Self>)
        ensures
            nodes@.len() <= 1 <==> tree is None,
            tree matches Some(t) ==> t@.wf() && t@.len() == nodes@.len()
                && is_minimum_spanning_tree(fingerprints(nodes@), t@.parent),
            tree matches Some(t) ==> t@.edge_count() == nodes@.len() - 1 && tree_weight(
                fingerprints(nodes@),
                t@.parent,
            ) <= tree_weight(fingerprints(nodes@), chain(nodes@.len())),
            tree matches Some(t) ==> frontier_grown(fingerprints(nodes@), t@.parent, t@.rank),
    {
        if nodes.len() <= 1 {
            return None;
        }
        let fps = collect_fingerprints(nodes);
        let (graph, parent, rank, slot) = grow_from_root(&fps);
        proof {
            lemma_frontier_grown_is_saturated(fps@, parent@, rank@);
            lemma_saturated_is_minimum(fps@, parent@, rank@);
            lemma_minimum_at_most_chain(fps@, parent@);
        }
        Some(Self::assemble(graph, parent, rank, slot))
    }

    /// The root of the tree, which is vertex 0.
    pub fn root(&self) -> (r: usize)
        ensures
            r == 0,
    {
        proof {
            use_type_invariant(self);
        }
        self.root
    }

    /// Number of vertices.
    pub fn len(&self) -> (n: usize)
        ensures
            n == self@.len(),
            self@.wf(),
    {
        proof {
            use_type_invariant(self);
        }
        self.graph.len()
    }

    /// The ordered child lists of all vertices, indexed by vertex.
    pub fn graph(&self) -> (lists: &Vec<Vec<usize>>)
        ensures
            lists@.len() == self@.len(),
            forall|v: int| 0 <= v < self@.len() ==> (#[trigger] lists@[v])@ == self@.children[v],
    {
        &self.graph
    }

    /// The ordered children of vertex `v`, or nothing if there is no such vertex.
    pub fn children(&self, v: usize) -> (c: Option<&Vec<usize>>)
        ensures
            v < self@.len() ==> c is Some && c.unwrap()@ == self@.children[v as int],
            v >= self@.len() ==> c is None,
    {
        if v < self.graph.len() {
            Some(&self.graph[v])
        } else {
            None
        }
    }

    /// The total weight of the tree over the fingerprints of `nodes`, which
    /// must be as many as the tree has vertices; nothing otherwise.
    #[verifier::rlimit(50)]
    pub fn weight(&self, nodes: &[ImageEntry]) -> (total: Option<u128>)
        ensures
            total is Some <==> nodes@.len() == self@.len(),
            total matches Some(w) ==> w == tree_weight(fingerprints(nodes@), self@.parent),
    {
        proof {
            use_type_invariant(self);
        }
        let n = self.graph.len();
        if nodes.len() != n {
            return None;
        }
        let ghost fp = fingerprints(nodes@);
        let ghost t = self@;
        let mut total: u128 = 0;
        let mut done: usize = 0;
        let mut v: usize = 0;
        proof {
            lemma_pass_ends(fp, t, n as nat);
        }
        while v < n
            invariant
                t == self@,
                t.wf(),
                fp == fingerprints(nodes@),
                n == self.graph@.len(),
                n == nodes@.len(),
                n == t.len(),
                v <= n,
                done == edge_count_upto(t.children, v as nat),
                done <= n - 1,
                total == passed_weight(fp, t, v as int, 0, n as nat),
                total <= 64 * done,
            decreases n - v,
        {
            let kids = &self.graph[v];
            let mut i: usize = 0;
            proof {
                lemma_edge_count_bound(t.children, v as nat, n as nat);
            }
            while i < kids.len()
                invariant
                    t == self@,
                    t.wf(),
                    fp == fingerprints(nodes@),
                    n == nodes@.len(),
                    n == t.len(),
                    v < n,
                    kids@ == t.children[v as int],
                    i <= kids@.len(),
                    done == edge_count_upto(t.children, v as nat) + i,
                    edge_count_upto(t.children, v as nat) + kids@.len() <= n - 1,
                    total == passed_weight(fp, t, v as int, i as int, n as nat),
                    total <= 64 * done,
                decreases kids@.len() - i,
            {
                let c = kids[i];
                proof {
                    lemma_pass_child(fp, t, v as int, i as int, n as nat);
                    assert(t.children[v as int][i as int] == c);
                    lemma_edge_weight_symmetric(fp, c as int, v as int);
                }
                total = total + hamming_distance(nodes[v].hash, nodes[c].hash) as u128;
                done = done + 1;
                i = i + 1;
            }
            proof {
                lemma_pass_vertex(fp, t, v as int, n as nat);
            }
            v = v + 1;
        }
        proof {
            lemma_pass_ends(fp, t, n as nat);
        }
        Some(total)
    }

    /// One step of the traversal: pops the top frame, emits its vertex if
    /// that has not happened yet, and schedules its next child if it has one.
    #[verifier::rlimit(50)]
    fn step(&self, stack: &mut Vec<StackFrame>) -> (r: Option<Option<usize>>)
        requires
            stack_ok(self@, old(stack)@),
        ensures
            stack_ok(self@, final(stack)@),
            final(stack)@ == after_step(self@, old(stack)@),
            old(stack)@.len() == 0 ==> r is None,
            old(stack)@.len() > 0 ==> r == Some(step_output(old(stack)@)),
            r matches Some(e) ==> stack_pending(self@, old(stack)@) == emitted(e) + stack_pending(
                self@,
                final(stack)@,
            ) && steps_bound(self@, final(stack)@) < steps_bound(self@, old(stack)@),
    {
        proof {
            use_type_invariant(self);
        }
        let ghost before = stack@;
        match stack.pop() {
            None => None,
            Some(top) => {
                let ghost rest = stack@;
                assert(rest == before.drop_last());
                assert(top == before.last());
                assert(frame_ok(self@, before[before.len() - 1]));
                let mut sf = top;
                let mut res: Option<usize> = None;
                if !sf.printed {
                    res = Some(sf.idx);
                }
                if sf.edge_idx >= sf.len {
                    assert(self@.preorder_rest(top.idx as int, top.edge_idx as int)
                        == Seq::<usize>::empty());
                    assert(frame_pending(self@, top) =~= emitted(res));
                    assert forall|i: int| 0 <= i < rest.len() implies frame_ok(
                        self@,
                        #[trigger] rest[i],
                    ) by {
                        assert(rest[i] == before[i]);
                    }
                    return Some(res);
                }
                let cur = sf.idx;
                let cursor = sf.edge_idx;
                sf.edge_idx = sf.edge_idx + 1;
                sf.printed = true;
                let ghost again = sf;
                stack.push(sf);
                let kids = &self.graph[cur];
                let idx = kids[cursor];
                assert(idx == self@.children[cur as int][cursor as int]);
                let len = self.graph[idx].len();
                let child = StackFrame { idx, edge_idx: 0, len, printed: false };
                stack.push(child);
                proof {
                    let t = self@;
                    let after = stack@;
                    assert(after.drop_last() == rest.push(again));
                    assert(after.drop_last().drop_last() == rest);
                    assert(after.last() == child);
                    assert(after.drop_last().last() == again);
                    assert(t.preorder_rest(cur as int, cursor as int) == t.preorder_from(
                        idx as int,
                    ) + t.preorder_rest(cur as int, cursor + 1));
                    assert(frame_pending(t, child) =~= t.preorder_from(idx as int));
                    assert(frame_pending(t, again) =~= t.preorder_rest(cur as int, cursor + 1));
                    assert(stack_pending(t, after.drop_last()) == frame_pending(t, again)
                        + stack_pending(t, rest));
                    assert(stack_pending(t, after) == frame_pending(t, child) + (frame_pending(
                        t,
                        again,
                    ) + stack_pending(t, rest)));
                    assert(stack_pending(t, before) =~= emitted(res) + stack_pending(t, after));
                    assert forall|i: int| 0 <= i < after.len() implies frame_ok(
                        t,
                        #[trigger] after[i],
                    ) by {
                        if i < rest.len() {
                            assert(after[i] == before[i]);
                        }
                    }
                }
                Some(res)
            },
        }
    }

    /// Starts a preorder walk of the tree.
    pub fn iter<'a>(&'a self) -> (it: MSTIterator<'a>)
        ensures
            it.model() == self@,
            it.remaining() == self@.preorder(),
            it.frames() == seq![
                StackFrame {
                    idx: 0,
                    edge_idx: 0,
                    len: self@.children[0].len() as usize,
                    printed: false,
                },
            ],
    {
        MSTIterator::new(self)
    }

    /// The vertices of the tree in preorder, found with an explicit stack.
    pub fn dfs_preorder_iterative(&self) -> (order: Vec<usize>)
        ensures
            order@ == self@.preorder(),
            order@.len() == self@.len(),
            order@[0] == 0,
            order@.no_duplicates(),
            forall|v: usize| v < self@.len() ==> order@.contains(v),
            forall|i: int| 0 <= i < order@.len() ==> (#[trigger] order@[i]) < self@.len(),
    {
        proof {
            use_type_invariant(self);
            lemma_preorder_is_permutation(self@);
        }
        let mut order: Vec<usize> = Vec::new();
        let mut stack: Vec<StackFrame> = Vec::new();
        let root = self.root;
        stack.push(StackFrame { idx: root, edge_idx: 0, len: self.graph[root].len(), printed: false });
        assert(stack@.drop_last() =~= Seq::<StackFrame>::empty());
        assert(stack_pending(self@, stack@.drop_last()) == Seq::<usize>::empty());
        assert(frame_pending(self@, stack@.last()) == self@.preorder_from(0));
        assert(stack_pending(self@, stack@) =~= self@.preorder());
        loop
            invariant
                self@.wf(),
                stack_ok(self@, stack@),
                order@ + stack_pending(self@, stack@) == self@.preorder(),
            decreases steps_bound(self@, stack@),
        {
            match self.step(&mut stack) {
                None => {
                    assert(order@ =~= order@ + Seq::<usize>::empty());
                    proof {
                        lemma_preorder_is_permutation(self@);
                    }
                    return order;
                },
                Some(None) => {
                    assert(emitted(None::<usize>) + stack_pending(self@, stack@) =~= stack_pending(
                        self@,
                        stack@,
                    ));
                },
                Some(Some(v)) => {
                    let ghost was = order@;
                    order.push(v);
                    assert(order@ + stack_pending(self@, stack@) =~= was + (emitted(Some(v))
                        + stack_pending(self@, stack@)));
                },
            }
        }
    }
}

} // verus!
