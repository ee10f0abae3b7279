//! Union-find with union by size and path compression.
//!
//! The ghost representative map `rep` names a canonical root for every
//! element; `find` returns it, `same` compares it, and `unite` rewrites it
//! for one merged class.  A ghost height bound `dist` proves that the
//! parent chains are acyclic, which terminates the recursion of `find`.

use vstd::prelude::*;

verus! {

/// Sum of a sequence of integers.
pub open spec fn seq_sum(s: Seq<int>) -> int
    decreases s.len(),
{
    if s.len() == 0 {
        0
    } else {
        seq_sum(s.drop_last()) + s.last()
    }
}

proof fn lemma_seq_sum_update(s: Seq<int>, j: int, v: int)
    requires
        0 <= j < s.len(),
    ensures
        seq_sum(s.update(j, v)) == seq_sum(s) - s[j] + v,
    decreases s.len(),
{
    let s2 = s.update(j, v);
    if j == s.len() - 1 {
        assert(s2.drop_last() =~= s.drop_last());
    } else {
        assert(s2.drop_last() =~= s.drop_last().update(j, v));
        lemma_seq_sum_update(s.drop_last(), j, v);
        assert(s.drop_last()[j] == s[j]);
    }
}

proof fn lemma_seq_sum_bound(s: Seq<int>, j: int)
    requires
        0 <= j < s.len(),
        forall|i: int| 0 <= i < s.len() ==> #[trigger] s[i] >= 0,
    ensures
        s[j] <= seq_sum(s),
        seq_sum(s) >= 0,
    decreases s.len(),
{
    lemma_seq_sum_nonneg(s.drop_last());
    assert(s[s.len() - 1] >= 0);
    if j < s.len() - 1 {
        assert(s.drop_last()[j] == s[j]);
        lemma_seq_sum_bound(s.drop_last(), j);
    }
}

proof fn lemma_seq_sum_nonneg(s: Seq<int>)
    requires
        forall|i: int| 0 <= i < s.len() ==> #[trigger] s[i] >= 0,
    ensures
        seq_sum(s) >= 0,
    decreases s.len(),
{
    if s.len() > 0 {
        assert forall|i: int| 0 <= i < s.drop_last().len() implies #[trigger] s.drop_last()[i]
            >= 0 by {
            assert(s.drop_last()[i] == s[i]);
        }
        lemma_seq_sum_nonneg(s.drop_last());
        assert(s[s.len() - 1] >= 0);
    }
}

proof fn lemma_seq_sum_pair(s: Seq<int>, j: int, k: int)
    requires
        0 <= j < s.len(),
        0 <= k < s.len(),
        j != k,
        forall|i: int| 0 <= i < s.len() ==> #[trigger] s[i] >= 0,
    ensures
        s[j] + s[k] <= seq_sum(s),
{
    let s2 = s.update(j, 0);
    lemma_seq_sum_update(s, j, 0);
    assert(s2[k] == s[k]);
    assert forall|i: int| 0 <= i < s2.len() implies #[trigger] s2[i] >= 0 by {
        if i != j {
            assert(s2[i] == s[i]);
        }
    }
    lemma_seq_sum_bound(s2, k);
}



/// A partition of `{0, .., n-1}` under union by size with path compression.
pub struct DisjointSet {
    /// number of classes still distinct
    trees: usize,
    /// parent pointers; a root points to itself
    data: Vec<usize>,
    /// per root: the tracked size of its class
    size: Vec<usize>,
    /// canonical representative of each element
    rep: Ghost<Seq<int>>,
    /// strictly decreasing along parent pointers; zero exactly at roots
    dist: Ghost<Seq<int>>,
}

impl DisjointSet {
    /// Number of elements.
    pub closed spec fn nv(self) -> int {
        self.data.len() as int
    }

    /// The representative map: two elements are in the same class exactly
    /// when their representatives coincide.
    pub closed spec fn reps(self) -> Seq<int> {
        self.rep@
    }

    /// Tracked class sizes, indexed by representative.
    pub closed spec fn sizes(self) -> Seq<int> {
        Seq::new(self.size.len() as nat, |j: int| self.size[j] as int)
    }

    /// Tracked number of classes.
    pub closed spec fn tree_count(self) -> int {
        self.trees as int
    }

    /// Height bound of `x` in its parent chain (zero at a root).
    pub closed spec fn height(self, x: int) -> int {
        self.dist@[x]
    }

    /// Whether `j` is the root of its parent chain.
    pub closed spec fn root_at(self, j: int) -> bool {
        self.data[j] as int == j
    }

    /// What callers may rely on of the views: the representative and size
    /// maps cover all elements and every representative is an element.
    pub open spec fn views_ok(self) -> bool {
        &&& self.reps().len() == self.nv()
        &&& self.sizes().len() == self.nv()
        &&& forall|j: int| 0 <= j < self.nv() ==> 0 <= #[trigger] self.reps()[j] < self.nv()
    }

    spec fn size_terms(self) -> Seq<int> {
        Seq::new(
            self.data.len() as nat,
            |j: int|
                if self.data[j] as int == j {
                    self.size[j] as int
                } else {
                    0
                },
        )
    }

    spec fn root_terms(self) -> Seq<int> {
        Seq::new(
            self.data.len() as nat,
            |j: int|
                if self.data[j] as int == j {
                    1int
                } else {
                    0int
                },
        )
    }

    /// Structural invariant: parent pointers stay inside one class, the
    /// height bound decreases along them, representatives are roots, and
    /// the tracked sizes and class count tally with the root set.
    pub closed spec fn wf(self) -> bool {
        let n = self.nv();
        let rep = self.rep@;
        let dist = self.dist@;
        &&& self.size.len() == n
        &&& rep.len() == n
        &&& dist.len() == n
        &&& forall|j: int| 0 <= j < n ==> 0 <= (#[trigger] self.data[j] as int) < n
        &&& forall|j: int| 0 <= j < n ==> 0 <= #[trigger] rep[j] < n
        &&& forall|j: int| 0 <= j < n ==> #[trigger] rep[self.data[j] as int] == rep[j]
        &&& forall|j: int| 0 <= j < n ==> #[trigger] dist[j] >= 0
        &&& forall|j: int| 0 <= j < n ==> ((#[trigger] self.data[j] as int) == j <==> dist[j] == 0)
        &&& forall|j: int|
            0 <= j < n && (#[trigger] self.data[j] as int) != j ==> dist[self.data[j] as int]
                < dist[j]
        &&& forall|j: int| 0 <= j < n ==> (#[trigger] self.data[rep[j]] as int) == rep[j]
        &&& forall|j: int| 0 <= j < n && (#[trigger] self.data[j] as int) == j ==> rep[j] == j
        &&& seq_sum(self.size_terms()) == n
        &&& seq_sum(self.root_terms()) == self.tree_count()
    }

    /// A fresh structure with `n` singleton classes.
    pub fn new(n: usize) -> (s: Self)
        ensures
            s.wf(),
            s.views_ok(),
            s.nv() == n,
            s.tree_count() == n,
            forall|j: int| 0 <= j < n ==> #[trigger] s.reps()[j] == j,
            forall|j: int| 0 <= j < n ==> #[trigger] s.sizes()[j] == 1,
    {
        let mut data: Vec<usize> = Vec::new();
        let mut size: Vec<usize> = Vec::new();
        let mut i: usize = 0;
        while i < n
            invariant
                i <= n,
                data.len() == i,
                size.len() == i,
                forall|j: int| 0 <= j < i ==> (#[trigger] data[j] as int) == j,
                forall|j: int| 0 <= j < i ==> (#[trigger] size[j] as int) == 1,
            decreases n - i,
        {
            data.push(i);
            size.push(1);
            i = i + 1;
        }
        let s = Self {
            trees: n,
            data,
            size,
            rep: Ghost(Seq::new(n as nat, |j: int| j)),
            dist: Ghost(Seq::new(n as nat, |j: int| 0int)),
        };
        proof {
            lemma_const_sums(s.size_terms(), 1);
            lemma_const_sums(s.root_terms(), 1);
        }
        s
    }

    /// The representative of `x`, compressing the path behind it.
    pub fn find(&mut self, x: usize) -> (r: usize)
        requires
            old(self).wf(),
            (x as int) < old(self).nv(),
        ensures
            final(self).wf(),
            final(self).views_ok(),
            final(self).nv() == old(self).nv(),
            final(self).reps() == old(self).reps(),
            final(self).sizes() == old(self).sizes(),
            final(self).tree_count() == old(self).tree_count(),
            forall|j: int|
                0 <= j < old(self).nv() ==> (final(self).root_at(j) <==> old(self).root_at(j)),
            r as int == old(self).reps()[x as int],
            (r as int) < final(self).nv(),
        decreases old(self).height(x as int),
    {
        let p = self.data[x];
        if p == x {
            x
        } else {
            let r = self.find(p);
            let ghost mid = *self;
            self.data.set(x, r);
            proof {
                let n = self.nv();
                assert(r as int == self.rep@[x as int]);
                assert(!self.root_at(x as int));
                assert forall|j: int|
                    0 <= j < n implies (self.root_at(j) <==> old(self).root_at(j)) by {
                    if j != x as int {
                        assert(self.data[j] == mid.data[j]);
                        assert(mid.root_at(j) <==> old(self).root_at(j));
                    }
                }
                assert(self.size_terms() =~= mid.size_terms()) by {
                    assert(forall|j: int|
                        0 <= j < n && j != x as int ==> mid.data[j] == #[trigger] self.data[j]);
                }
                assert(self.root_terms() =~= mid.root_terms()) by {
                    assert(forall|j: int|
                        0 <= j < n && j != x as int ==> mid.data[j] == #[trigger] self.data[j]);
                }
                let rep = self.rep@;
                let dist = self.dist@;
                assert(mid.data[rep[x as int]] as int == rep[x as int]);
                assert(rep[r as int] == r) by {
                    assert(mid.root_at(r as int));
                }
                assert(r as int != x as int);
                assert(self.data[r as int] as int == r);
                assert(dist[r as int] == 0);
                assert(dist[x as int] >= 1) by {
                    assert(mid.data[x as int] as int != x as int);
                }
                assert forall|j: int|
                    0 <= j < n implies 0 <= (#[trigger] self.data[j] as int) < n by {
                    if j != x as int {
                        assert(self.data[j] == mid.data[j]);
                    }
                }
                assert forall|j: int|
                    0 <= j < n implies #[trigger] rep[self.data[j] as int] == rep[j] by {
                    if j != x as int {
                        assert(self.data[j] == mid.data[j]);
                    }
                }
                assert forall|j: int|
                    0 <= j < n implies ((#[trigger] self.data[j] as int) == j <==> dist[j]
                        == 0) by {
                    if j != x as int {
                        assert(self.data[j] == mid.data[j]);
                    }
                }
                assert forall|j: int|
                    0 <= j < n && (#[trigger] self.data[j] as int) != j implies dist[self.data[
                        j
                    ] as int] < dist[j] by {
                    if j != x as int {
                        assert(self.data[j] == mid.data[j]);
                    }
                }
                assert forall|j: int|
                    0 <= j < n implies (#[trigger] self.data[rep[j]] as int) == rep[j] by {
                    if rep[j] != x as int {
                        assert(self.data[rep[j]] == mid.data[rep[j]]);
                    } else {
                        assert(mid.data[rep[j]] as int == rep[j]);
                        assert(mid.root_at(x as int));
                    }
                }
                assert forall|j: int|
                    0 <= j < n && (#[trigger] self.data[j] as int) == j implies rep[j] == j by {
                    assert(j != x as int);
                    assert(self.data[j] == mid.data[j]);
                }
            }
            r
        }
    }

    /// Whether `x` and `y` lie in the same class.
    pub fn same(&mut self, x: usize, y: usize) -> (r: bool)
        requires
            old(self).wf(),
            (x as int) < old(self).nv(),
            (y as int) < old(self).nv(),
        ensures
            final(self).wf(),
            final(self).views_ok(),
            final(self).nv() == old(self).nv(),
            final(self).reps() == old(self).reps(),
            final(self).sizes() == old(self).sizes(),
            final(self).tree_count() == old(self).tree_count(),
            r == (old(self).reps()[x as int] == old(self).reps()[y as int]),
    {
        let px = self.find(x);
        let py = self.find(y);
        self.data[px] == self.data[py]
    }

    /// Merge the classes of `x` and `y`: the smaller class is pointed at
    /// the root of the larger (ties keep `y`'s root), their tracked sizes
    /// are added, and the class count drops by one; nothing changes when
    /// they are already together.
    pub fn unite(&mut self, x: usize, y: usize)
        requires
            old(self).wf(),
            (x as int) < old(self).nv(),
            (y as int) < old(self).nv(),
        ensures
            final(self).wf(),
            final(self).views_ok(),
            final(self).nv() == old(self).nv(),
            old(self).reps()[x as int] == old(self).reps()[y as int] ==> final(self).reps() == old(
                self,
            ).reps() && final(self).sizes() == old(self).sizes() && final(self).tree_count() == old(
                self,
            ).tree_count(),
            old(self).reps()[x as int] != old(self).reps()[y as int] ==> ({
                let rx = old(self).reps()[x as int];
                let ry = old(self).reps()[y as int];
                let w = if old(self).sizes()[ry] < old(self).sizes()[rx] {
                    rx
                } else {
                    ry
                };
                let l = if old(self).sizes()[ry] < old(self).sizes()[rx] {
                    ry
                } else {
                    rx
                };
                &&& final(self).tree_count() == old(self).tree_count() - 1
                &&& final(self).sizes() == old(self).sizes().update(
                    w,
                    old(self).sizes()[rx] + old(self).sizes()[ry],
                )
                &&& final(self).reps() == Seq::new(
                    old(self).nv() as nat,
                    |z: int|
                        if old(self).reps()[z] == l {
                            w
                        } else {
                            old(self).reps()[z]
                        },
                )
            }),
    {
        let mut px = self.find(x);
        let mut py = self.find(y);
        if px == py {
            return ;
        }
        let ghost rx = self.rep@[x as int];
        let ghost ry = self.rep@[y as int];
        if self.size[py] < self.size[px] {
            let t = px;
            px = py;
            py = t;
        }
        // px is the root of the smaller class; it joins py's class
        proof {
            lemma_seq_sum_pair(self.size_terms(), px as int, py as int);
        }
        let sy = self.size[py];
        let sx = self.size[px];
        let ghost pre = *self;
        proof {
            assert(pre.root_terms()[py as int] == 1);
            lemma_seq_sum_bound(pre.root_terms(), py as int);
        }
        self.data.set(px, py);
        self.size.set(py, sy + sx);
        self.trees = self.trees - 1;
        proof {
            let n = self.nv();
            self.rep@ = Seq::new(
                n as nat,
                |z: int|
                    if pre.rep@[z] == px as int {
                        py as int
                    } else {
                        pre.rep@[z]
                    },
            );
            self.dist@ = Seq::new(
                n as nat,
                |z: int|
                    if pre.rep@[z] == px as int {
                        pre.dist@[z] + 1
                    } else {
                        pre.dist@[z]
                    },
            );
            assert(self.size_terms() =~= pre.size_terms().update(px as int, 0int).update(
                py as int,
                sy + sx,
            ));
            lemma_seq_sum_update(pre.size_terms(), px as int, 0int);
            lemma_seq_sum_update(pre.size_terms().update(px as int, 0int), py as int, sy + sx);
            assert(self.root_terms() =~= pre.root_terms().update(px as int, 0int));
            lemma_seq_sum_update(pre.root_terms(), px as int, 0int);
            lemma_seq_sum_bound(pre.root_terms(), py as int);
            assert(self.sizes() =~= pre.sizes().update(py as int, sy + sx as int));
            assert(self.reps() =~= Seq::new(
                old(self).nv() as nat,
                |z: int|
                    if old(self).reps()[z] == px as int {
                        py as int
                    } else {
                        old(self).reps()[z]
                    },
            ));
        }
    }

    /// The tracked number of classes.
    pub fn num_trees(&self) -> (r: usize)
        ensures
            r as int == self.tree_count(),
    {
        self.trees
    }

    /// The tracked size of the class of `x`.
    pub fn size(&mut self, x: usize) -> (r: usize)
        requires
            old(self).wf(),
            (x as int) < old(self).nv(),
        ensures
            final(self).wf(),
            final(self).views_ok(),
            final(self).nv() == old(self).nv(),
            final(self).reps() == old(self).reps(),
            final(self).sizes() == old(self).sizes(),
            final(self).tree_count() == old(self).tree_count(),
            r as int == old(self).sizes()[old(self).reps()[x as int]],
    {
        let p = self.data[x];
        let px = self.find(p);
        self.size[px]
    }
}

/// Sum of a constant sequence.
proof fn lemma_const_sums(s: Seq<int>, v: int)
    requires
        forall|i: int| 0 <= i < s.len() ==> #[trigger] s[i] == v,
    ensures
        seq_sum(s) == s.len() * v,
    decreases s.len(),
{
    if s.len() > 0 {
        lemma_const_sums(s.drop_last(), v);
        assert(s.last() == v);
        assert(s.len() * v == (s.len() - 1) * v + v) by (nonlinear_arith);
    }
}

} // verus!
