//! A partition of the vertices `0..n` into disjoint sets that can only merge:
//! parent pointers with union by rank and path halving.

use vstd::prelude::*;
use vstd::set_lib::{lemma_int_range, lemma_len_subset, set_int_range};

verus! {

/// The elements that represent their own set.
pub open spec fn representatives(repr: Seq<usize>) -> Set<int> {
    Set::new(|x: int| 0 <= x < repr.len() && repr[x] == x)
}

/// `after` is `before` with the sets of `a` and `b` merged into one, which
/// one of their two representatives now represents.
pub open spec fn merged_sets(before: Seq<usize>, after: Seq<usize>, a: int, b: int) -> bool {
    let ra = before[a];
    let rb = before[b];
    &&& after.len() == before.len()
    &&& after[a] == ra || after[a] == rb
    &&& forall|x: int|
        0 <= x < before.len() ==> #[trigger] after[x] == if before[x] == ra || before[x] == rb {
            after[a]
        } else {
            before[x]
        }
}

/// All elements are in one set.
pub open spec fn all_one_set(repr: Seq<usize>) -> bool {
    forall|x: int, y: int|
        0 <= x < repr.len() && 0 <= y < repr.len() ==> #[trigger] repr[x] == #[trigger] repr[y]
}

/// A partition of `0..n` into disjoint sets, each named by one of its elements.
pub struct DisjointSets {
    parent: Vec<usize>,
    rank: Vec<usize>,
    count: usize,
    repr: Ghost<Seq<usize>>,
}

impl DisjointSets {
    /// Number of elements.
    pub closed spec fn len(&self) -> nat {
        self.parent@.len()
    }

    /// The representative of the set of each element. Two elements are in one
    /// set exactly when they have the same representative.
    pub closed spec fn repr(&self) -> Seq<usize> {
        self.repr@
    }

    /// Number of sets.
    pub closed spec fn set_count(&self) -> nat {
        self.count as nat
    }

    /// The parent pointers lead from every element to its representative,
    /// ranks grow along them, and the sets are counted.
    pub closed spec fn wf(&self) -> bool {
        let n = self.parent@.len();
        &&& self.rank@.len() == n
        &&& self.repr@.len() == n
        &&& forall|x: int| 0 <= x < n ==> (#[trigger] self.parent@[x]) < n
        &&& forall|x: int|
            0 <= x < n ==> (#[trigger] self.repr@[x]) < n && self.repr@[self.repr@[x] as int]
                == self.repr@[x]
        &&& forall|x: int|
            0 <= x < n ==> self.repr@[(#[trigger] self.parent@[x]) as int] == self.repr@[x]
        &&& forall|x: int| 0 <= x < n ==> ((#[trigger] self.parent@[x]) == x <==> self.repr@[x] == x)
        &&& forall|x: int|
            0 <= x < n && (#[trigger] self.parent@[x]) != x ==> self.rank@[x]
                < self.rank@[self.parent@[x] as int]
        &&& forall|x: int| 0 <= x < n ==> (#[trigger] self.rank@[x]) + self.count <= n
        &&& self.count == representatives(self.repr@).len()
    }

    /// What every partition satisfies: representatives are elements, they
    /// represent themselves, and there are as many as there are sets.
    pub proof fn lemma_repr(&self)
        requires
            self.wf(),
        ensures
            self.repr().len() == self.len(),
            forall|x: int|
                0 <= x < self.len() ==> (#[trigger] self.repr()[x]) < self.len()
                    && self.repr()[self.repr()[x] as int] == self.repr()[x],
            representatives(self.repr()).finite(),
            self.set_count() == representatives(self.repr()).len(),
            self.set_count() <= self.len(),
    {
        let n = self.len();
        lemma_int_range(0, n as int);
        assert(representatives(self.repr@).subset_of(set_int_range(0, n as int)));
        lemma_len_subset(representatives(self.repr@), set_int_range(0, n as int));
    }

    /// A partition of at least one element is a single set exactly when it
    /// counts one set.
    pub proof fn lemma_single_set(&self)
        requires
            self.wf(),
            self.len() >= 1,
        ensures
            self.set_count() >= 1,
            self.set_count() == 1 <==> all_one_set(self.repr()),
    {
        self.lemma_repr();
        let repr = self.repr@;
        let roots = representatives(repr);
        let first = repr[0] as int;
        assert(roots.contains(first));
        if roots.len() == 0 {
            assert(roots =~= Set::<int>::empty());
        }
        if self.set_count() == 1 {
            assert forall|x: int, y: int|
                0 <= x < repr.len() && 0 <= y < repr.len() implies #[trigger] repr[x]
                == #[trigger] repr[y] by {
                let rx = repr[x] as int;
                let ry = repr[y] as int;
                assert(roots.contains(rx) && roots.contains(ry));
                if rx != ry {
                    assert(roots.remove(rx).contains(ry));
                    if roots.remove(rx).len() == 0 {
                        assert(roots.remove(rx) =~= Set::<int>::empty());
                    }
                }
            }
        }
        if all_one_set(repr) {
            assert forall|r: int| roots.contains(r) implies r == first by {
                assert(repr[r] == repr[0]);
            }
            assert(roots =~= Set::<int>::empty().insert(first));
        }
    }

    /// The partition of `0..n` into `n` sets of one element.
    pub fn new(n: usize) -> (sets: Self)
        ensures
            sets.wf(),
            sets.len() == n,
            sets.set_count() == n,
            sets.repr().len() == n,
            forall|x: int| 0 <= x < n ==> #[trigger] sets.repr()[x] == x,
    {
        let mut parent: Vec<usize> = Vec::new();
        let mut rank: Vec<usize> = Vec::new();
        let mut i: usize = 0;
        while i < n
            invariant
                i <= n,
                parent@.len() == i,
                rank@.len() == i,
                forall|x: int| 0 <= x < i ==> #[trigger] parent@[x] == x,
                forall|x: int| 0 <= x < i ==> #[trigger] rank@[x] == 0,
            decreases n - i,
        {
            parent.push(i);
            rank.push(0);
            i = i + 1;
        }
        let ghost repr = parent@;
        proof {
            lemma_int_range(0, n as int);
            assert(representatives(repr) =~= set_int_range(0, n as int));
        }
        DisjointSets { parent, rank, count: n, repr: Ghost(repr) }
    }

    /// Number of sets.
    pub fn sets(&self) -> (c: usize)
        ensures
            c == self.set_count(),
    {
        self.count
    }

    /// The representative of the set of `x`. Shortens the path from `x` to
    /// it on the way; the partition stays as it is.
    pub fn find(&mut self, x: usize) -> (r: usize)
        requires
            old(self).wf(),
            x < old(self).len(),
        ensures
            final(self).wf(),
            final(self).len() == old(self).len(),
            final(self).repr() == old(self).repr(),
            final(self).set_count() == old(self).set_count(),
            r == old(self).repr()[x as int],
    {
        let n = self.parent.len();
        let mut cur = x;
        loop
            invariant
                self.wf(),
                n == self.parent@.len(),
                self.parent@.len() == old(self).parent@.len(),
                self.repr@ == old(self).repr@,
                self.count == old(self).count,
                cur < n,
                self.repr@[cur as int] == self.repr@[x as int],
            decreases n - self.rank@[cur as int],
        {
            let p = self.parent[cur];
            if p == cur {
                return cur;
            }
            let gp = self.parent[p];
            assert(self.rank@[cur as int] < self.rank@[p as int]);
            assert(self.rank@[p as int] <= self.rank@[gp as int]);
            assert(self.repr@[gp as int] == self.repr@[cur as int]);
            assert(self.rank@[gp as int] + self.count <= n);
            self.parent.set(cur, gp);
            cur = gp;
        }
    }

    /// Merges the sets of `a` and `b`. Returns whether there was anything to
    /// merge, that is, whether they were in different sets.
    pub fn union(&mut self, a: usize, b: usize) -> (merged: bool)
        requires
            old(self).wf(),
            a < old(self).len(),
            b < old(self).len(),
        ensures
            final(self).wf(),
            final(self).len() == old(self).len(),
            merged == (old(self).repr()[a as int] != old(self).repr()[b as int]),
            !merged ==> final(self).repr() == old(self).repr() && final(self).set_count() == old(
                self,
            ).set_count(),
            merged ==> final(self).set_count() == old(self).set_count() - 1 && merged_sets(
                old(self).repr(),
                final(self).repr(),
                a as int,
                b as int,
            ),
    {
        let ra = self.find(a);
        let rb = self.find(b);
        if ra == rb {
            return false;
        }
        let n = self.parent.len();
        let ghost before = self.repr@;
        let ghost old_rank = self.rank@;
        let ghost old_parent = self.parent@;
        let ghost old_roots = representatives(before);
        proof {
            self.lemma_repr();
            assert(old_roots.contains(ra as int));
            assert(old_roots.contains(rb as int));
        }
        let rank_a = self.rank[ra];
        let rank_b = self.rank[rb];
        let (child, root) = if rank_a < rank_b {
            (ra, rb)
        } else {
            (rb, ra)
        };
        assert(self.count >= 1) by {
            if old_roots.len() == 0 {
                assert(old_roots =~= Set::<int>::empty());
            }
        }
        assert(rank_a + self.count <= n);
        if rank_a == rank_b {
            self.rank.set(root, rank_a + 1);
        }
        self.parent.set(child, root);
        self.count = self.count - 1;
        let ghost after = Seq::new(
            n as nat,
            |x: int|
                if before[x] == child {
                    root
                } else {
                    before[x]
                },
        );
        proof {
            self.repr = Ghost(after);
            assert(representatives(after) =~= old_roots.remove(child as int));
            assert forall|x: int| 0 <= x < n implies after[(#[trigger] self.parent@[x]) as int]
                == after[x] by {
                if x != child {
                    assert(before[old_parent[x] as int] == before[x]);
                }
            }
            assert forall|x: int| 0 <= x < n && (#[trigger] self.parent@[x]) != x implies self.rank@[x]
                < self.rank@[self.parent@[x] as int] by {
                if x != child {
                    assert(old_parent[x] != x);
                    assert(old_rank[x] < old_rank[old_parent[x] as int]);
                }
            }
            assert forall|x: int| 0 <= x < n implies (#[trigger] self.rank@[x]) + self.count
                <= n by {
                assert(old_rank[x] + (self.count + 1) <= n);
            }
            assert(merged_sets(before, after, a as int, b as int));
        }
        true
    }
}

} // verus!
