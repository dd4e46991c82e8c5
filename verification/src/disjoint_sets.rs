use vstd::prelude::*;

verus! {

/// Union-find over identifiers handed out by `make_set`, with union by rank
/// and path compression by halving. The ghost `rep` sequence names each
/// identifier's class representative, which is what the contracts speak of;
/// the ghost `level` sequence strictly decreases towards each root, which
/// bounds every parent walk.
pub struct DisjointSets {
    pub parent: Vec<usize>,
    pub rank: Vec<u8>,
    pub rep: Ghost<Seq<usize>>,
    pub level: Ghost<Seq<nat>>,
}

impl DisjointSets {
    /// The class representative of each identifier.
    pub open spec fn reps(self) -> Seq<usize> {
        self.rep@
    }

    pub open spec fn spec_len(self) -> int {
        self.parent@.len() as int
    }

    pub open spec fn wf(self) -> bool {
        let n = self.parent@.len();
        &&& self.rank@.len() == n
        &&& self.rep@.len() == n
        &&& self.level@.len() == n
        &&& forall|i: int| 0 <= i < n ==> (#[trigger] self.parent@[i] as int) < n
        &&& forall|i: int| 0 <= i < n ==> (#[trigger] self.rep@[i] as int) < n
        &&& forall|i: int|
            0 <= i < n && (#[trigger] self.parent@[i] as int) == i ==> self.rep@[i] as int == i
        &&& forall|i: int|
            0 <= i < n ==> self.rep@[(#[trigger] self.parent@[i]) as int] == self.rep@[i]
        &&& forall|i: int|
            0 <= i < n ==> self.parent@[(#[trigger] self.rep@[i]) as int] == self.rep@[i]
        &&& forall|i: int|
            0 <= i < n && (#[trigger] self.parent@[i] as int) != i
                ==> self.level@[self.parent@[i] as int] < self.level@[i]
    }

    pub fn new() -> (r: DisjointSets)
        ensures
            r.wf(),
            r.spec_len() == 0,
    {
        DisjointSets {
            parent: Vec::new(),
            rank: Vec::new(),
            rep: Ghost(Seq::empty()),
            level: Ghost(Seq::empty()),
        }
    }

    pub fn len(&self) -> (r: usize)
        ensures
            r == self.spec_len(),
    {
        self.parent.len()
    }

    /// Creates a fresh singleton class and returns its identifier, which is
    /// its own representative.
    pub fn make_set(&mut self) -> (id: usize)
        requires
            old(self).wf(),
            old(self).spec_len() < usize::MAX,
        ensures
            final(self).wf(),
            id == old(self).spec_len(),
            final(self).spec_len() == old(self).spec_len() + 1,
            final(self).reps() == old(self).reps().push(id),
    {
        let id: usize = self.parent.len();
        self.parent.push(id);
        self.rank.push(0);
        proof {
            self.rep@ = self.rep@.push(id);
            self.level@ = self.level@.push(0);
        }
        id
    }

    /// The representative of `a`'s class, compressing the walked path by
    /// halving: every visited identifier is re-pointed at its grandparent.
    #[verifier::loop_isolation(false)]
    pub fn find(&mut self, a: usize) -> (r: usize)
        requires
            old(self).wf(),
            a < old(self).spec_len(),
        ensures
            final(self).wf(),
            final(self).reps() == old(self).reps(),
            final(self).spec_len() == old(self).spec_len(),
            r == old(self).reps()[a as int],
            (r as int) < old(self).spec_len(),
    {
        let ghost n = self.parent@.len();
        let mut cur: usize = a;
        while self.parent[cur] != cur
            invariant
                self.wf(),
                self.parent@.len() == n,
                self.rep@ == old(self).rep@,
                self.level@ == old(self).level@,
                cur < n,
                self.rep@[cur as int] == old(self).rep@[a as int],
            decreases self.level@[cur as int],
        {
            let p: usize = self.parent[cur];
            let gp: usize = self.parent[p];
            let ghost pre = *self;
            self.parent[cur] = gp;
            proof {
                assert(self.parent@ =~= pre.parent@.update(cur as int, gp));
                assert(self.rep@[gp as int] == self.rep@[cur as int]);
                if pre.parent@[p as int] as int == p as int {
                    assert(gp == p);
                } else {
                    assert(self.level@[gp as int] < self.level@[p as int]);
                }
                assert(self.level@[gp as int] < self.level@[cur as int]);
                assert(gp as int != cur as int);
                assert(self.wf()) by {
                    assert forall|i: int|
                        0 <= i < n && (#[trigger] self.parent@[i] as int) != i implies self.level@[
                        self.parent@[i] as int] < self.level@[i] by {
                        if i != cur {
                            assert(self.parent@[i] == pre.parent@[i]);
                        }
                    }
                }
            }
            cur = p;
        }
        proof {
            assert(self.rep@[cur as int] == cur);
        }
        cur
    }

    /// Merges the classes of `a` and `b`, attaching the lower-ranked root
    /// under the higher. Afterwards two identifiers share a representative
    /// exactly when they already did or their classes were those of `a` and
    /// `b`.
    pub fn union(&mut self, a: usize, b: usize)
        requires
            old(self).wf(),
            a < old(self).spec_len(),
            b < old(self).spec_len(),
        ensures
            final(self).wf(),
            final(self).spec_len() == old(self).spec_len(),
            forall|i: int, j: int|
                0 <= i < old(self).spec_len() && 0 <= j < old(self).spec_len() ==> ((
                #[trigger] final(self).reps()[i] == #[trigger] final(self).reps()[j]) == (old(
                    self,
                ).reps()[i] == old(self).reps()[j] || (old(self).reps()[i] == old(self).reps()[
                    a as int] && old(self).reps()[j] == old(self).reps()[b as int]) || (old(
                    self,
                ).reps()[i] == old(self).reps()[b as int] && old(self).reps()[j] == old(
                    self,
                ).reps()[a as int]))),
    {
        let ghost n = self.parent@.len();
        let ghost reps0 = self.rep@;
        let ra: usize = self.find(a);
        let rb: usize = self.find(b);
        if ra == rb {
            return ;
        }
        let ra_rank: u8 = self.rank[ra];
        let rb_rank: u8 = self.rank[rb];
        let win: usize = if ra_rank >= rb_rank {
            ra
        } else {
            rb
        };
        let lose: usize = if ra_rank >= rb_rank {
            rb
        } else {
            ra
        };
        if ra_rank == rb_rank && ra_rank < 255 {
            self.rank[win] = ra_rank + 1;
        }
        let ghost pre = *self;
        self.parent[lose] = win;
        proof {
            assert(self.parent@ =~= pre.parent@.update(lose as int, win as usize));
            assert(reps0[win as int] == win);
            assert(reps0[lose as int] == lose);
            let rep1 = Seq::new(n, |i: int| if reps0[i] == lose {
                win as usize
            } else {
                reps0[i]
            });
            let lvl0 = self.level@;
            let shift = lvl0[win as int] + 1;
            let lvl1 = Seq::new(n, |i: int| if reps0[i] == lose {
                (lvl0[i] + shift) as nat
            } else {
                lvl0[i]
            });
            self.rep@ = rep1;
            self.level@ = lvl1;
            assert(self.wf()) by {
                assert forall|i: int| 0 <= i < n implies (#[trigger] self.rep@[i] as int) < n by {}
                assert forall|i: int|
                    0 <= i < n && (#[trigger] self.parent@[i] as int) == i implies self.rep@[
                    i] as int == i by {
                    assert(i != lose);
                    assert(pre.parent@[i] as int == i);
                    assert(reps0[i] as int == i);
                }
                assert forall|i: int|
                    0 <= i < n implies self.rep@[(#[trigger] self.parent@[i]) as int]
                    == self.rep@[i] by {
                    if i == lose {
                        assert(self.parent@[i] == win);
                    } else {
                        assert(self.parent@[i] == pre.parent@[i]);
                        assert(reps0[pre.parent@[i] as int] == reps0[i]);
                    }
                }
                assert forall|i: int|
                    0 <= i < n implies self.parent@[(#[trigger] self.rep@[i]) as int]
                    == self.rep@[i] by {
                    if reps0[i] == lose {
                        assert(self.rep@[i] == win);
                        assert(pre.parent@[win as int] == win);
                    } else {
                        assert(self.rep@[i] == reps0[i]);
                        assert((reps0[i] as int) != lose as int);
                        assert(pre.parent@[reps0[i] as int] == reps0[i]);
                    }
                }
                assert forall|i: int|
                    0 <= i < n && (#[trigger] self.parent@[i] as int) != i implies self.level@[
                    self.parent@[i] as int] < self.level@[i] by {
                    if i == lose {
                        assert(self.parent@[i] == win);
                        assert(reps0[win as int] != lose);
                        assert(self.level@[win as int] == lvl0[win as int]);
                        assert(self.level@[i] == lvl0[i] + shift);
                    } else {
                        assert(self.parent@[i] == pre.parent@[i]);
                        assert(reps0[pre.parent@[i] as int] == reps0[i]);
                        assert(lvl0[pre.parent@[i] as int] < lvl0[i]);
                    }
                }
            }
        }
    }

    /// Whether `a` and `b` are currently in the same class.
    pub fn same_set(&mut self, a: usize, b: usize) -> (r: bool)
        requires
            old(self).wf(),
            a < old(self).spec_len(),
            b < old(self).spec_len(),
        ensures
            final(self).wf(),
            final(self).spec_len() == old(self).spec_len(),
            final(self).reps() == old(self).reps(),
            r == (old(self).reps()[a as int] == old(self).reps()[b as int]),
    {
        let ra: usize = self.find(a);
        let rb: usize = self.find(b);
        ra == rb
    }
}

} // verus!
