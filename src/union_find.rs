//! Disjoint sets with union by rank and path compression.

use vstd::prelude::*;

verus! {

/// Representative of `x` in a parent forest: follow parent links until a
/// self-loop. `level` grows strictly along each link and never exceeds
/// `bound`, which is what makes the walk finite.
pub open spec fn root_in(parent: Seq<usize>, level: Seq<nat>, bound: nat, x: int) -> int
    decreases bound - level[x],
{
    if 0 <= x < parent.len() && parent.len() == level.len() && parent[x] as int != x
        && (parent[x] as int) < parent.len() && level[x] < level[parent[x] as int]
        && level[parent[x] as int] <= bound {
        root_in(parent, level, bound, parent[x] as int)
    } else {
        x
    }
}

/// Disjoint sets over `0..len`, with union by rank and path compression.
pub struct UnionFind {
    pub parent: Vec<usize>,
    pub rank: Vec<usize>,
    /// Ghost height of each element: strictly increases towards the root.
    pub level: Ghost<Seq<nat>>,
    pub bound: Ghost<nat>,
}

impl UnionFind {
    pub open spec fn len(&self) -> nat {
        self.parent@.len()
    }

    pub open spec fn wf(&self) -> bool {
        &&& self.rank@.len() == self.parent@.len()
        &&& self.level@.len() == self.parent@.len()
        &&& forall|i: int| 0 <= i < self.parent@.len() ==> (self.parent@[i] as int) < self.parent@.len()
        &&& forall|i: int| 0 <= i < self.parent@.len() ==> self.level@[i] <= self.bound@
        &&& forall|i: int|
            0 <= i < self.parent@.len() && self.parent@[i] as int != i ==> self.level@[i]
                < self.level@[self.parent@[i] as int]
    }

    /// The representative of the set holding `x`.
    pub open spec fn root(&self, x: int) -> int {
        root_in(self.parent@, self.level@, self.bound@, x)
    }

    pub proof fn lemma_root(&self, x: int)
        requires
            self.wf(),
            0 <= x < self.len(),
        ensures
            0 <= self.root(x) < self.len(),
            self.parent@[self.root(x)] as int == self.root(x),
            self.level@[x] <= self.level@[self.root(x)],
            self.parent@[x] as int != x ==> self.level@[x] < self.level@[self.root(x)],
            self.parent@[x] as int == x ==> self.root(x) == x,
            self.parent@[x] as int != x ==> self.root(x) == self.root(self.parent@[x] as int),
        decreases self.bound@ - self.level@[x],
    {
        if self.parent@[x] as int != x {
            self.lemma_root(self.parent@[x] as int);
        }
    }

    pub proof fn lemma_roots(&self)
        requires
            self.wf(),
        ensures
            forall|x: int|
                0 <= x < self.len() ==> 0 <= #[trigger] self.root(x) < self.len() && self.parent@[self.root(x)] as int
                    == self.root(x),
    {
        assert forall|x: int| 0 <= x < self.len() implies 0 <= #[trigger] self.root(x) < self.len()
            && self.parent@[self.root(x)] as int == self.root(x) by {
            self.lemma_root(x);
        }
    }

    /// Re-pointing elements at their own representative keeps every representative.
    proof fn lemma_compress(old_uf: &UnionFind, new_uf: &UnionFind, x: int)
        requires
            old_uf.wf(),
            new_uf.wf(),
            new_uf.level@ == old_uf.level@,
            new_uf.bound@ == old_uf.bound@,
            new_uf.len() == old_uf.len(),
            forall|i: int|
                0 <= i < old_uf.len() ==> new_uf.parent@[i] == old_uf.parent@[i] || new_uf.parent@[i] as int
                    == old_uf.root(i),
            0 <= x < old_uf.len(),
        ensures
            new_uf.root(x) == old_uf.root(x),
        decreases new_uf.bound@ - new_uf.level@[x],
    {
        old_uf.lemma_root(x);
        new_uf.lemma_root(x);
        let p = new_uf.parent@[x] as int;
        if p != x {
            old_uf.lemma_root(p);
            Self::lemma_compress(old_uf, new_uf, p);
        } else if old_uf.parent@[x] as int != x {
            assert(old_uf.level@[x] < old_uf.level@[old_uf.root(x)]);
        }
    }

    /// Hanging root `a` under root `b` sends the members of `a`'s set to `b`.
    proof fn lemma_link(old_uf: &UnionFind, new_uf: &UnionFind, a: int, b: int, x: int)
        requires
            old_uf.wf(),
            new_uf.wf(),
            0 <= a < old_uf.len(),
            0 <= b < old_uf.len(),
            a != b,
            old_uf.parent@[a] as int == a,
            old_uf.parent@[b] as int == b,
            new_uf.parent@ == old_uf.parent@.update(a, b as usize),
            forall|i: int| 0 <= i < old_uf.len() && i != b ==> new_uf.level@[i] == old_uf.level@[i],
            new_uf.level@[b] >= old_uf.level@[b],
            0 <= x < old_uf.len(),
        ensures
            new_uf.root(x) == (if old_uf.root(x) == a {
                b
            } else {
                old_uf.root(x)
            }),
        decreases new_uf.bound@ - new_uf.level@[x],
    {
        old_uf.lemma_root(x);
        new_uf.lemma_root(x);
        new_uf.lemma_root(b);
        old_uf.lemma_root(a);
        let p = new_uf.parent@[x] as int;
        if x != a && p != x {
            old_uf.lemma_root(p);
            Self::lemma_link(old_uf, new_uf, a, b, p);
        }
    }

    /// `n` singleton sets.
    pub fn new(n: usize) -> (r: UnionFind)
        ensures
            r.wf(),
            r.len() == n,
            forall|i: int| 0 <= i < n ==> #[trigger] r.root(i) == i,
    {
        let mut parent: Vec<usize> = Vec::new();
        let mut rank: Vec<usize> = Vec::new();
        let mut i: usize = 0;
        while i < n
            invariant
                i <= n,
                parent@.len() == i,
                rank@.len() == i,
                forall|j: int| 0 <= j < i ==> parent@[j] == j,
            decreases n - i,
        {
            parent.push(i);
            rank.push(0);
            i = i + 1;
        }
        let r = UnionFind {
            parent,
            rank,
            level: Ghost(Seq::new(n as nat, |j: int| 0nat)),
            bound: Ghost(0nat),
        };
        assert forall|j: int| 0 <= j < n implies #[trigger] r.root(j) == j by {
            r.lemma_root(j);
        }
        r
    }

    /// Representative of `x`; re-points the walked path at it.
    pub fn find(&mut self, x: usize) -> (r: usize)
        requires
            old(self).wf(),
            x < old(self).len(),
        ensures
            final(self).wf(),
            final(self).len() == old(self).len(),
            r as int == old(self).root(x as int),
            forall|i: int| 0 <= i < old(self).len() ==> #[trigger] final(self).root(i) == old(self).root(i),
            final(self).level@ == old(self).level@,
            final(self).bound@ == old(self).bound@,
            final(self).rank@ == old(self).rank@,
        decreases old(self).bound@ - old(self).level@[x as int],
    {
        proof {
            self.lemma_root(x as int);
        }
        let p = self.parent[x];
        if p != x {
            let ghost before = *self;
            let r = self.find(p);
            proof {
                before.lemma_root(p as int);
                self.lemma_root(p as int);
            }
            let ghost mid = *self;
            self.parent.set(x, r);
            proof {
                assert(mid.root(x as int) == before.root(x as int));
                mid.lemma_root(x as int);
                assert forall|i: int| 0 <= i < mid.len() implies #[trigger] self.root(i) == mid.root(i) by {
                    Self::lemma_compress(&mid, self, i);
                }
            }
        }
        proof {
            self.lemma_root(x as int);
        }
        self.parent[x]
    }

    /// Joins the sets of `x` and `y`; false when they were already one set.
    pub fn union(&mut self, x: usize, y: usize) -> (r: bool)
        requires
            old(self).wf(),
            x < old(self).len(),
            y < old(self).len(),
        ensures
            final(self).wf(),
            final(self).len() == old(self).len(),
            r == (old(self).root(x as int) != old(self).root(y as int)),
            final(self).root(x as int) == old(self).root(x as int) || final(self).root(x as int) == old(
                self,
            ).root(y as int),
            forall|i: int|
                0 <= i < old(self).len() ==> #[trigger] final(self).root(i) == (if old(self).root(i) == old(
                    self,
                ).root(x as int) || old(self).root(i) == old(self).root(y as int) {
                    final(self).root(x as int)
                } else {
                    old(self).root(i)
                }),
    {
        let ghost s0 = *self;
        proof {
            s0.lemma_root(x as int);
            s0.lemma_root(y as int);
        }
        let px = self.find(x);
        let ghost s1 = *self;
        proof {
            s0.lemma_root(px as int);
            s1.lemma_root(px as int);
        }
        let py = self.find(y);
        proof {
            s1.lemma_root(y as int);
            s1.lemma_root(py as int);
            self.lemma_root(px as int);
            self.lemma_root(py as int);
        }
        if px == py {
            return false;
        }
        let ghost before = *self;
        let (child, top) = if self.rank[px] < self.rank[py] {
            (px, py)
        } else {
            (py, px)
        };
        self.parent.set(child, top);
        let ghost nl = before.level@[child as int] + 1;
        self.level = Ghost(
            if before.level@[child as int] >= before.level@[top as int] {
                before.level@.update(top as int, nl)
            } else {
                before.level@
            },
        );
        self.bound = Ghost(if nl > before.bound@ { nl } else { before.bound@ });
        if self.rank[px] == self.rank[py] && self.rank[px] < usize::MAX {
            // Equal ranks: the new root's rank grows by one.
            let k = self.rank[px] + 1;
            self.rank.set(px, k);
        }
        proof {
            assert forall|i: int| 0 <= i < before.len() implies #[trigger] self.root(i) == (if before.root(i)
                == child as int {
                top as int
            } else {
                before.root(i)
            }) by {
                Self::lemma_link(&before, self, child as int, top as int, i);
            }
            before.lemma_root(x as int);
            before.lemma_root(y as int);
        }
        true
    }
}

} // verus!
