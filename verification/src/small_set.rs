use vstd::prelude::*;

verus! {

/// A set of `u64` values tuned for the very small cardinalities that
/// basic-block adjacency lists have in practice: the distinct elements sit in
/// one vector in insertion order, so membership tests and insertion walk a
/// handful of slots.
pub struct SmallU64Set {
    pub elems: Vec<u64>,
}

impl SmallU64Set {
    /// The distinct elements, in insertion order.
    pub open spec fn seq(self) -> Seq<u64> {
        self.elems@
    }

    /// The mathematical set of elements.
    pub open spec fn set(self) -> Set<u64> {
        self.elems@.to_set()
    }

    /// Well-formed: the backing vector holds no element twice.
    pub open spec fn wf(self) -> bool {
        self.elems@.no_duplicates()
    }

    pub fn new() -> (r: SmallU64Set)
        ensures
            r.wf(),
            r.seq() == Seq::<u64>::empty(),
            r.set() == Set::<u64>::empty(),
    {
        let r = SmallU64Set { elems: Vec::new() };
        proof {
            assert(r.set() =~= Set::<u64>::empty());
        }
        r
    }

    pub fn contains(&self, v: u64) -> (r: bool)
        ensures
            r == self.set().contains(v),
    {
        let n = self.elems.len();
        let mut i: usize = 0;
        while i < n
            invariant
                n == self.elems@.len(),
                i <= n,
                forall|j: int| 0 <= j < i ==> self.elems@[j] != v,
            decreases n - i,
        {
            if self.elems[i] == v {
                proof {
                    assert(self.seq().contains(v));
                }
                return true;
            }
            i += 1;
        }
        proof {
            assert(!self.seq().contains(v));
        }
        false
    }

    /// Number of elements in the set.
    pub fn len(&self) -> (r: usize)
        requires
            self.wf(),
        ensures
            r == self.set().len(),
            r == self.seq().len(),
    {
        proof {
            self.elems@.unique_seq_to_set();
        }
        self.elems.len()
    }

    /// Adds `v`; reports whether the set changed, that is whether `v` was new.
    pub fn insert(&mut self, v: u64) -> (r: bool)
        requires
            old(self).wf(),
        ensures
            final(self).wf(),
            r == !old(self).set().contains(v),
            final(self).set() == old(self).set().insert(v),
            final(self).seq() == if r {
                old(self).seq().push(v)
            } else {
                old(self).seq()
            },
    {
        if self.contains(v) {
            proof {
                assert(self.set() =~= old(self).set().insert(v));
            }
            false
        } else {
            self.elems.push(v);
            proof {
                old(self).seq().lemma_push_to_set_commute(v);
                assert(self.set() =~= old(self).set().insert(v));
            }
            true
        }
    }

    /// The element at position `i` of the insertion order.
    pub fn get(&self, i: usize) -> (r: u64)
        requires
            i < self.seq().len(),
        ensures
            r == self.seq()[i as int],
            self.set().contains(r),
    {
        proof {
            assert(self.seq().contains(self.seq()[i as int]));
        }
        self.elems[i]
    }
}

} // verus!
