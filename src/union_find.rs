//! Disjoint sets over `0..len` with path compression and union by size.
use vstd::prelude::*;
use vstd::set_lib::*;

verus! {

/// A disjoint-set forest. Besides the forest itself it carries, as ghost
/// state, the root of every element and a rank that grows strictly along
/// parent links (which is what makes `find` terminate).
pub(crate) struct UnionFind {
    pub(crate) parent: Vec<usize>,
    pub(crate) size: Vec<usize>,
    pub(crate) rep: Ghost<Seq<int>>,
    pub(crate) rank: Ghost<Seq<int>>,
    pub(crate) bound: Ghost<int>,
}

impl UnionFind {
    pub(crate) open spec fn len(&self) -> int {
        self.parent@.len() as int
    }

    /// The root of the set that holds `i`.
    pub(crate) open spec fn root(&self, i: int) -> int {
        self.rep@[i]
    }

    /// The elements whose root is `r`.
    pub(crate) open spec fn members(&self, r: int) -> Set<int> {
        Set::new(|i: int| 0 <= i < self.len() && self.rep@[i] == r)
    }

    /// The roots, one per set.
    pub(crate) open spec fn roots(&self) -> Set<int> {
        Set::new(|i: int| 0 <= i < self.len() && self.rep@[i] == i)
    }

    pub(crate) open spec fn wf(&self) -> bool {
        &&& self.size@.len() == self.len()
        &&& self.rep@.len() == self.len()
        &&& self.rank@.len() == self.len()
        &&& forall|i: int|
            0 <= i < self.len() ==> {
                &&& #[trigger] self.parent@[i] < self.len()
                &&& 0 <= self.rep@[i] < self.len()
                &&& self.rep@[self.rep@[i]] == self.rep@[i]
                &&& self.rep@[self.parent@[i] as int] == self.rep@[i]
                &&& (self.parent@[i] == i <==> self.rep@[i] == i)
                &&& (self.parent@[i] != i ==> self.rank@[self.parent@[i] as int] > self.rank@[i]
                    && self.rank@[self.rep@[i]] > self.rank@[i])
                &&& 0 <= self.rank@[i] < self.bound@
                &&& (self.rep@[i] == i ==> self.size@[i] == self.members(i).len())
            }
    }

    pub(crate) proof fn lemma_members_finite(&self, r: int)
        ensures
            self.members(r).finite(),
            self.members(r).len() <= self.len(),
    {
        lemma_int_range(0, self.len());
        lemma_len_subset(self.members(r), set_int_range(0, self.len()));
    }

    pub(crate) proof fn lemma_roots_finite(&self)
        ensures
            self.roots().finite(),
            self.roots().len() <= self.len(),
    {
        lemma_int_range(0, self.len());
        lemma_len_subset(self.roots(), set_int_range(0, self.len()));
    }

    /// `n` singleton sets.
    pub(crate) fn new(n: usize) -> (uf: UnionFind)
        ensures
            uf.wf(),
            uf.len() == n,
            forall|i: int| 0 <= i < n ==> #[trigger] uf.root(i) == i,
    {
        let mut parent: Vec<usize> = Vec::new();
        let mut size: Vec<usize> = Vec::new();
        let mut i: usize = 0;
        while i < n
            invariant
                i <= n,
                parent@.len() == i,
                size@.len() == i,
                forall|j: int| 0 <= j < i ==> #[trigger] parent@[j] == j && size@[j] == 1,
            decreases n - i,
        {
            parent.push(i);
            size.push(1);
            i = i + 1;
        }
        let uf = UnionFind {
            parent,
            size,
            rep: Ghost(Seq::new(n as nat, |j: int| j)),
            rank: Ghost(Seq::new(n as nat, |j: int| 0)),
            bound: Ghost(1),
        };
        assert forall|j: int| 0 <= j < n implies #[trigger] uf.members(j).len() == 1 by {
            assert(uf.members(j) =~= set![j]);
        }
        uf
    }

    /// The root of `x`'s set; links every node on the way straight to it.
    pub(crate) fn find(&mut self, x: usize) -> (r: usize)
        requires
            old(self).wf(),
            x < old(self).len(),
        ensures
            final(self).wf(),
            r == old(self).root(x as int),
            final(self).len() == old(self).len(),
            final(self).rep == old(self).rep,
            final(self).rank == old(self).rank,
            final(self).bound == old(self).bound,
            final(self).size == old(self).size,
            final(self).parent@[x as int] == r,
        decreases self.bound@ - self.rank@[x as int],
    {
        let p = self.parent[x];
        if p != x {
            assert(self.parent@[x as int] < self.len());
            assert(self.parent@[p as int] < self.len());
            assert(self.rank@[p as int] > self.rank@[x as int]);
            let r = self.find(p);
            let ghost mid = *self;
            assert(mid.parent@[x as int] < mid.len());
            self.parent.set(x, r);
            assert forall|i: int| 0 <= i < self.len() implies #[trigger] self.parent@[i] < self.len()
                && self.rep@[self.parent@[i] as int] == self.rep@[i] && (self.parent@[i] == i
                <==> self.rep@[i] == i) && (self.parent@[i] != i ==> self.rank@[self.parent@[i] as int]
                > self.rank@[i]) by {
                assert(mid.parent@[i] < mid.len());
            }
            assert forall|i: int| 0 <= i < self.len() implies #[trigger] self.members(i) == old(self).members(i) by {
                assert(self.members(i) =~= old(self).members(i));
            }
            r
        } else {
            x
        }
    }

    /// Merges the sets of `a` and `b`; the larger set's root survives.
    pub(crate) fn union(&mut self, a: usize, b: usize)
        requires
            old(self).wf(),
            a < old(self).len(),
            b < old(self).len(),
        ensures
            final(self).wf(),
            final(self).len() == old(self).len(),
            old(self).root(a as int) == old(self).root(b as int) ==> final(self).rep == old(self).rep,
            old(self).root(a as int) != old(self).root(b as int) ==> {
                &&& final(self).root(a as int) == old(self).root(a as int) || final(self).root(a as int) == old(self).root(b as int)
                &&& forall|i: int| 0 <= i < old(self).len() ==> #[trigger] final(self).root(i) == if old(self).root(i) == old(self).root(a as int) || old(self).root(i) == old(self).root(b as int) {
                    final(self).root(a as int)
                } else {
                    old(self).root(i)
                }
                &&& final(self).roots().len() + 1 == old(self).roots().len()
                &&& final(self).root(a as int) == if old(self).size@[old(self).root(a as int)] < old(self).size@[old(self).root(b as int)] {
                    old(self).root(b as int)
                } else {
                    old(self).root(a as int)
                }
            },
    {
        let fa = self.find(a);
        let fb = self.find(b);
        assert(self.parent@[a as int] < self.len());
        assert(self.parent@[b as int] < self.len());
        if fa == fb {
            return;
        }
        let ghost before = *self;
        let (pa, pb) = if self.size[fa] < self.size[fb] {
            (fb, fa)
        } else {
            (fa, fb)
        };
        proof {
            before.lemma_members_finite(pa as int);
            before.lemma_members_finite(pb as int);
            assert(before.members(pa as int).disjoint(before.members(pb as int)));
            lemma_set_disjoint_lens(before.members(pa as int), before.members(pb as int));
            assert(before.members(pa as int) + before.members(pb as int) =~= Set::new(
                |i: int| 0 <= i < before.len() && (before.rep@[i] == pa || before.rep@[i] == pb),
            ));
            lemma_int_range(0, before.len());
            lemma_len_subset(
                Set::new(|i: int| 0 <= i < before.len() && (before.rep@[i] == pa || before.rep@[i] == pb)),
                set_int_range(0, before.len()),
            );
        }
        let n = self.parent.len();
        assert(before.parent@[pa as int] < before.len());
        assert(before.parent@[pb as int] < before.len());
        let total = self.size[pa] + self.size[pb];
        self.parent.set(pb, pa);
        self.size.set(pa, total);
        let ghost old_rank_pa = before.rank@[pa as int];
        let ghost new_rank_pa = if old_rank_pa > before.rank@[pb as int] {
            old_rank_pa
        } else {
            before.rank@[pb as int] + 1
        };
        self.rep = Ghost(before.rep@.map_values(|r: int| if r == pb { pa as int } else { r }));
        self.rank = Ghost(before.rank@.update(pa as int, new_rank_pa));
        self.bound = Ghost(if new_rank_pa + 1 > before.bound@ { new_rank_pa + 1 } else { before.bound@ });
        proof {
            assert forall|r: int| 0 <= r < self.len() && r != pa implies #[trigger] self.members(r) == if r == pb {
                Set::<int>::empty()
            } else {
                before.members(r)
            } by {
                assert(self.members(r) =~= if r == pb {
                    Set::<int>::empty()
                } else {
                    before.members(r)
                });
            }
            assert(self.members(pa as int) =~= before.members(pa as int) + before.members(pb as int));
            assert(self.members(pb as int) =~= Set::<int>::empty());
            assert forall|i: int| 0 <= i < self.len() implies {
                &&& #[trigger] self.parent@[i] < self.len()
                &&& 0 <= self.rep@[i] < self.len()
                &&& self.rep@[self.rep@[i]] == self.rep@[i]
                &&& self.rep@[self.parent@[i] as int] == self.rep@[i]
                &&& (self.parent@[i] == i <==> self.rep@[i] == i)
                &&& (self.parent@[i] != i ==> self.rank@[self.parent@[i] as int] > self.rank@[i]
                    && self.rank@[self.rep@[i]] > self.rank@[i])
                &&& 0 <= self.rank@[i] < self.bound@
                &&& (self.rep@[i] == i ==> self.size@[i] == self.members(i).len())
            } by {
                assert(before.parent@[i] < before.len());
                if i == pa as int {
                    assert(self.size@[i] == total);
                } else if i == pb as int {
                } else {
                    assert(before.parent@[i] == self.parent@[i]);
                    assert(before.parent@[before.parent@[i] as int] < before.len());
                    if self.rep@[i] == i {
                        assert(self.members(i) == before.members(i));
                    }
                }
            }
            before.lemma_roots_finite();
            assert(self.roots() =~= before.roots().remove(pb as int));
        }
    }
}

} // verus!
