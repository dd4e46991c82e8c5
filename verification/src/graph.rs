use vstd::prelude::*;

use crate::small_set::SmallU64Set;

verus! {

broadcast use vstd::seq_lib::seq_to_set_is_finite;

/// Directed graph over a `u64` node-id space, grown incrementally by
/// idempotent edge insertion. Nodes come into being the first time an edge
/// mentions them; nothing is ever removed.
pub struct Graph {
    /// Adjacency list: one entry per node, holding its successor set.
    pub adj: Vec<(u64, SmallU64Set)>,
    /// Number of distinct edges recorded so far.
    pub edges: u64,
}

impl Graph {
    pub open spec fn has_node(self, a: u64) -> bool {
        exists|i: int| 0 <= i < self.adj@.len() && (#[trigger] self.adj@[i]).0 == a
    }

    pub open spec fn has_edge(self, a: u64, b: u64) -> bool {
        exists|i: int|
            0 <= i < self.adj@.len() && (#[trigger] self.adj@[i]).0 == a
                && self.adj@[i].1.set().contains(b)
    }

    /// Total number of stored successors over a prefix of the adjacency list.
    pub open spec fn edge_sum(s: Seq<(u64, SmallU64Set)>) -> nat
        decreases s.len(),
    {
        if s.len() == 0 {
            0
        } else {
            Self::edge_sum(s.drop_last()) + s.last().1.set().len()
        }
    }

    /// Well-formed: node ids are unique, successor sets are well-formed sets
    /// whose members are themselves nodes, and the cached edge count equals
    /// the number of stored successors.
    pub open spec fn wf(self) -> bool {
        &&& forall|i: int, j: int|
            0 <= i < j < self.adj@.len() ==> (#[trigger] self.adj@[i]).0 != (
            #[trigger] self.adj@[j]).0
        &&& forall|i: int| 0 <= i < self.adj@.len() ==> (#[trigger] self.adj@[i]).1.wf()
        &&& forall|i: int, b: u64|
            0 <= i < self.adj@.len() && #[trigger] self.adj@[i].1.set().contains(b)
                ==> self.has_node(b)
        &&& self.edges == Self::edge_sum(self.adj@)
    }

    /// True iff no edge has ever been recorded.
    pub open spec fn spec_is_empty(self) -> bool {
        forall|x: u64, y: u64| !self.has_edge(x, y)
    }

    /// How one `update(from, to)` call relates the graph before the call to
    /// the graph after it: exactly the edge `from -> to` appears, both of its
    /// endpoints become nodes, and `changed` reports whether the edge was new.
    pub open spec fn updated(pre: Graph, post: Graph, from: u64, to: u64, changed: bool) -> bool {
        &&& changed == !pre.has_edge(from, to)
        &&& forall|x: u64, y: u64|
            #[trigger] post.has_edge(x, y) == (pre.has_edge(x, y) || (x == from && y == to))
        &&& forall|x: u64| #[trigger] post.has_node(x) == (pre.has_node(x) || x == from || x == to)
        &&& post.edges as int == pre.edges as int + (if changed {
            1int
        } else {
            0int
        })
    }

    pub fn new() -> (r: Graph)
        ensures
            r.wf(),
            r.spec_is_empty(),
            r.edges == 0,
            forall|x: u64| !r.has_node(x),
    {
        Graph { adj: Vec::new(), edges: 0 }
    }

    /// Index of the adjacency entry of node `a`, if the node exists.
    fn find_index(&self, a: u64) -> (r: Option<usize>)
        ensures
            match r {
                Some(i) => i < self.adj@.len() && self.adj@[i as int].0 == a,
                None => !self.has_node(a),
            },
    {
        let n = self.adj.len();
        let mut i: usize = 0;
        while i < n
            invariant
                n == self.adj@.len(),
                i <= n,
                forall|j: int| 0 <= j < i ==> (#[trigger] self.adj@[j]).0 != a,
            decreases n - i,
        {
            if self.adj[i].0 == a {
                return Some(i);
            }
            i += 1;
        }
        None
    }

    pub fn contains_node(&self, a: u64) -> (r: bool)
        ensures
            r == self.has_node(a),
    {
        self.find_index(a).is_some()
    }

    pub fn contains_edge(&self, a: u64, b: u64) -> (r: bool)
        requires
            self.wf(),
        ensures
            r == self.has_edge(a, b),
    {
        match self.find_index(a) {
            Some(i) => {
                let r = self.adj[i].1.contains(b);
                proof {
                    if self.has_edge(a, b) {
                        let j = choose|j: int|
                            0 <= j < self.adj@.len() && (#[trigger] self.adj@[j]).0 == a
                                && self.adj@[j].1.set().contains(b);
                        assert(j == i);
                    }
                }
                r
            },
            None => false,
        }
    }

    pub fn num_edges(&self) -> (r: u64)
        ensures
            r == self.edges,
    {
        self.edges
    }

    pub fn node_count(&self) -> (r: usize)
        ensures
            r == self.adj@.len(),
    {
        self.adj.len()
    }

    /// Ensures an adjacency entry for node `a` exists, creating it with an
    /// empty successor set if needed, and returns its index. The edge
    /// relation and all other entries are untouched.
    fn ensure_node(&mut self, a: u64) -> (i: usize)
        requires
            old(self).wf(),
        ensures
            final(self).wf(),
            i < final(self).adj@.len(),
            final(self).adj@[i as int].0 == a,
            final(self).edges == old(self).edges,
            old(self).adj@.len() <= final(self).adj@.len(),
            forall|x: u64, y: u64|
                #[trigger] final(self).has_edge(x, y) == old(self).has_edge(x, y),
            forall|x: u64| #[trigger] final(self).has_node(x) == (old(self).has_node(x) || x == a),
            forall|j: int|
                0 <= j < old(self).adj@.len() ==> final(self).adj@[j] == old(self).adj@[j],
    {
        match self.find_index(a) {
            Some(i) => i,
            None => {
                let i: usize = self.adj.len();
                self.adj.push((a, SmallU64Set::new()));
                proof {
                    let post = self.adj@;
                    assert(post.drop_last() =~= old(self).adj@);
                    assert(post.last().1.set().len() == 0) by {
                        assert(post.last().1.set() =~= Set::<u64>::empty());
                    }
                    assert(Self::edge_sum(post) == Self::edge_sum(old(self).adj@));
                    assert forall|x: u64, y: u64| #[trigger]
                        self.has_edge(x, y) == old(self).has_edge(x, y) by {
                        if old(self).has_edge(x, y) {
                            let j = choose|j: int|
                                0 <= j < old(self).adj@.len() && (#[trigger] old(
                                    self,
                                ).adj@[j]).0 == x && old(self).adj@[j].1.set().contains(y);
                            assert(self.adj@[j].0 == x && self.adj@[j].1.set().contains(y));
                        }
                        if self.has_edge(x, y) {
                            let j = choose|j: int|
                                0 <= j < self.adj@.len() && (#[trigger] self.adj@[j]).0 == x
                                    && self.adj@[j].1.set().contains(y);
                            if j < old(self).adj@.len() {
                                assert(old(self).adj@[j].0 == x && old(
                                    self,
                                ).adj@[j].1.set().contains(y));
                            } else {
                                assert(self.adj@[j].1.set() =~= Set::<u64>::empty());
                            }
                        }
                    }
                    assert forall|x: u64| #[trigger]
                        self.has_node(x) == (old(self).has_node(x) || x == a) by {
                        if old(self).has_node(x) {
                            let j = choose|j: int|
                                0 <= j < old(self).adj@.len() && (#[trigger] old(
                                    self,
                                ).adj@[j]).0 == x;
                            assert(self.adj@[j].0 == x);
                        }
                        if x == a {
                            assert(self.adj@[i as int].0 == a);
                        }
                        if self.has_node(x) {
                            let j = choose|j: int|
                                0 <= j < self.adj@.len() && (#[trigger] self.adj@[j]).0 == x;
                            if j < old(self).adj@.len() {
                                assert(old(self).adj@[j].0 == x);
                            }
                        }
                    }
                }
                i
            },
        }
    }

    /// Records the directed edge `from -> to`, creating either endpoint on
    /// first mention. Returns true iff the edge set changed, so a repeated
    /// call is a no-op that returns false.
    pub fn update(&mut self, from: u64, to: u64) -> (r: bool)
        requires
            old(self).wf(),
            old(self).edges < u64::MAX,
        ensures
            final(self).wf(),
            Graph::updated(*old(self), *final(self), from, to, r),
    {
        let i: usize = self.ensure_node(from);
        self.ensure_node(to);
        let ghost mid = *self;
        let ghost i_spec = i as int;
        // The entry for `from` kept its index: `ensure_node(to)` only appends.
        assert(self.adj@[i_spec].0 == from);
        let entry = &mut self.adj[i];
        let r = entry.1.insert(to);
        if r {
            self.edges = self.edges + 1;
        }
        proof {
            let post = *self;
            assert(post.adj@ =~= mid.adj@.update(i_spec, post.adj@[i_spec]));
            assert(post.adj@[i_spec].0 == from);
            assert(post.adj@[i_spec].1.set() == mid.adj@[i_spec].1.set().insert(to));
            Self::lemma_edge_sum_update(mid.adj@, i_spec, post.adj@[i_spec]);
            if r {
                vstd::set::axiom_set_insert_len(mid.adj@[i_spec].1.set(), to);
            } else {
                assert(mid.adj@[i_spec].1.set().insert(to) =~= mid.adj@[i_spec].1.set());
            }
            // the edge was present before iff the `from` entry contained `to`
            assert(mid.has_edge(from, to) == mid.adj@[i_spec].1.set().contains(to)) by {
                if mid.has_edge(from, to) {
                    let j = choose|j: int|
                        0 <= j < mid.adj@.len() && (#[trigger] mid.adj@[j]).0 == from
                            && mid.adj@[j].1.set().contains(to);
                    assert(j == i_spec);
                }
            }
            assert forall|x: u64, y: u64| #[trigger]
                post.has_edge(x, y) == (mid.has_edge(x, y) || (x == from && y == to)) by {
                if mid.has_edge(x, y) {
                    let j = choose|j: int|
                        0 <= j < mid.adj@.len() && (#[trigger] mid.adj@[j]).0 == x
                            && mid.adj@[j].1.set().contains(y);
                    assert(post.adj@[j].0 == x && post.adj@[j].1.set().contains(y));
                }
                if x == from && y == to {
                    assert(post.adj@[i_spec].0 == x && post.adj@[i_spec].1.set().contains(y));
                }
                if post.has_edge(x, y) {
                    let j = choose|j: int|
                        0 <= j < post.adj@.len() && (#[trigger] post.adj@[j]).0 == x
                            && post.adj@[j].1.set().contains(y);
                    if j != i_spec {
                        assert(mid.adj@[j].0 == x && mid.adj@[j].1.set().contains(y));
                    }
                }
            }
            assert forall|x: u64| #[trigger] post.has_node(x) == mid.has_node(x) by {
                if mid.has_node(x) {
                    let j = choose|j: int| 0 <= j < mid.adj@.len() && (#[trigger] mid.adj@[j]).0 == x;
                    assert(post.adj@[j].0 == x);
                }
                if post.has_node(x) {
                    let j = choose|j: int|
                        0 <= j < post.adj@.len() && (#[trigger] post.adj@[j]).0 == x;
                    assert(mid.adj@[j].0 == x);
                }
            }
            assert(post.wf()) by {
                assert forall|j: int, b: u64|
                    0 <= j < post.adj@.len() && #[trigger] post.adj@[j].1.set().contains(b)
                        implies post.has_node(b) by {
                    if j == i_spec && b == to {
                        assert(post.has_node(to));
                    } else {
                        assert(mid.adj@[j].1.set().contains(b));
                        assert(mid.has_node(b));
                    }
                }
            }
        }
        r
    }

    /// True iff no edge has ever been recorded.
    pub fn is_empty(&self) -> (r: bool)
        requires
            self.wf(),
        ensures
            r == self.spec_is_empty(),
    {
        let r = self.edges == 0;
        proof {
            if r {
                Self::lemma_edge_sum_zero(self.adj@);
                assert forall|x: u64, y: u64| !self.has_edge(x, y) by {
                    if self.has_edge(x, y) {
                        let j = choose|j: int|
                            0 <= j < self.adj@.len() && (#[trigger] self.adj@[j]).0 == x
                                && self.adj@[j].1.set().contains(y);
                        let s = self.adj@[j].1.set();
                        if s.len() == 0 {
                            s.lemma_len0_is_empty();
                        }
                    }
                }
            } else {
                Self::lemma_edge_sum_pos(self.adj@);
                let j = choose|j: int|
                    0 <= j < self.adj@.len() && (#[trigger] self.adj@[j]).1.set().len() > 0;
                let s = self.adj@[j].1.set();
                if !(exists|b: u64| s.contains(b)) {
                    assert(s =~= Set::<u64>::empty());
                }
                let b = choose|b: u64| s.contains(b);
                assert(self.has_edge(self.adj@[j].0, b));
            }
        }
        r
    }

    /// Recording the same edge twice in a row: the first call reports a
    /// change exactly when the edge was absent, the second call never does,
    /// and over the pair the edge count rises by exactly one when the edge
    /// was new.
    pub proof fn lemma_update_idempotent(
        g0: Graph,
        g1: Graph,
        g2: Graph,
        a: u64,
        b: u64,
        r1: bool,
        r2: bool,
    )
        requires
            Graph::updated(g0, g1, a, b, r1),
            Graph::updated(g1, g2, a, b, r2),
        ensures
            r1 == !g0.has_edge(a, b),
            !r2,
            g2.edges as int == g0.edges as int + (if g0.has_edge(a, b) {
                0int
            } else {
                1int
            }),
    {
        assert(g1.has_edge(a, b));
    }

    /// Replacing one adjacency entry changes the successor total by the
    /// difference between the new and the old successor set of that entry.
    proof fn lemma_edge_sum_update(s: Seq<(u64, SmallU64Set)>, i: int, e: (u64, SmallU64Set))
        requires
            0 <= i < s.len(),
        ensures
            Self::edge_sum(s.update(i, e)) + s[i].1.set().len() == Self::edge_sum(s)
                + e.1.set().len(),
        decreases s.len(),
    {
        let t = s.update(i, e);
        if i == s.len() - 1 {
            assert(t.drop_last() =~= s.drop_last());
        } else {
            assert(t.drop_last() =~= s.drop_last().update(i, e));
            Self::lemma_edge_sum_update(s.drop_last(), i, e);
        }
    }

    /// A successor total of zero means every successor set is empty.
    proof fn lemma_edge_sum_zero(s: Seq<(u64, SmallU64Set)>)
        requires
            Self::edge_sum(s) == 0,
        ensures
            forall|i: int| 0 <= i < s.len() ==> (#[trigger] s[i]).1.set().len() == 0,
        decreases s.len(),
    {
        if s.len() > 0 {
            Self::lemma_edge_sum_zero(s.drop_last());
            assert forall|i: int| 0 <= i < s.len() implies (#[trigger] s[i]).1.set().len() == 0 by {
                if i < s.len() - 1 {
                    assert(s.drop_last()[i] == s[i]);
                } else {
                    assert(s[i] == s.last());
                }
            }
        }
    }

    /// A positive successor total names at least one non-empty successor set.
    proof fn lemma_edge_sum_pos(s: Seq<(u64, SmallU64Set)>)
        requires
            Self::edge_sum(s) > 0,
        ensures
            exists|i: int| 0 <= i < s.len() && (#[trigger] s[i]).1.set().len() > 0,
        decreases s.len(),
    {
        if s.last().1.set().len() > 0 {
            assert(0 <= s.len() - 1 < s.len() && s[s.len() - 1].1.set().len() > 0);
        } else {
            Self::lemma_edge_sum_pos(s.drop_last());
            let j = choose|j: int|
                0 <= j < s.drop_last().len() && (#[trigger] s.drop_last()[j]).1.set().len() > 0;
            assert(s[j] == s.drop_last()[j]);
            assert(s[j].1.set().len() > 0);
        }
    }
}

} // verus!
