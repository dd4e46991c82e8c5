use vstd::prelude::*;

use crate::graph::Graph;
use crate::snapshot::{GraphIpc, IpcMessage};

verus! {

/// Predecessor entry of the initial state, which forked from nothing.
pub const NO_PREDECESSOR: u32 = 0xFFFF_FFFFu32;

/// Ceiling on permanent state identities: they must stay below the
/// predecessor sentinel.
pub const MAX_STATES: usize = 0xFFFF_FFFFusize;

/// The host broke the alias-growth contract: a fork named a new alias
/// strictly beyond the alias table. The session cannot continue safely.
#[derive(Clone, Copy, Debug, PartialEq, Eq, Structural)]
pub struct ContractViolation;

/// Number of times one virtual address was translated under one state.
pub struct GenEntry {
    pub state: u32,
    pub vaddr: u64,
    pub count: u8,
}

/// The `(state, address)` pair a generation entry counts for.
pub open spec fn gen_key(e: GenEntry) -> (u32, u64) {
    (e.state, e.vaddr)
}

/// The generation table as a map from `(state, address)` to its counter.
pub open spec fn gen_map(s: Seq<GenEntry>) -> Map<(u32, u64), u8>
    decreases s.len(),
{
    if s.len() == 0 {
        Map::empty()
    } else {
        gen_map(s.drop_last()).insert(gen_key(s.last()), s.last().count)
    }
}

/// The counter value after one more translation of `key`: inserted at zero
/// and incremented on the first translation, saturating instead of wrapping.
pub open spec fn gen_bump(m: Map<(u32, u64), u8>, key: (u32, u64)) -> u8 {
    if m.contains_key(key) {
        if m[key] < 255 {
            (m[key] + 1) as u8
        } else {
            255u8
        }
    } else {
        1u8
    }
}

/// The stateful core: reconciles the host's reused aliases against permanent
/// state identities, grows the state-lineage graph and the block-transition
/// graph from lifecycle callbacks, and produces the snapshot messages that
/// stream both graphs to the observer.
pub struct StateTracker {
    /// Maps each currently live alias to the permanent identity it denotes.
    pub alias_to_id: Vec<u32>,
    /// Per state: virtual address of its most recently started block, zero
    /// until the state ever starts one.
    pub last_block: Vec<u64>,
    /// Per state: the state it forked from, `NO_PREDECESSOR` for state 0.
    pub predecessor: Vec<u32>,
    /// Translation counters, one entry per `(state, address)` pair seen.
    pub generations: Vec<GenEntry>,
    /// Fork/merge lineage over state identities.
    pub state_graph: Graph,
    /// Block-transition graph over virtual addresses.
    pub block_graph: Graph,
    /// Whether any block was ever recorded for any state.
    pub block_seen: bool,
}

impl StateTracker {
    /// Number of state identities allocated so far.
    pub open spec fn num_states(self) -> int {
        self.last_block@.len() as int
    }

    /// The generation map in force.
    pub open spec fn gens(self) -> Map<(u32, u64), u8> {
        gen_map(self.generations@)
    }

    pub open spec fn wf(self) -> bool {
        &&& self.last_block@.len() == self.predecessor@.len()
        &&& 1 <= self.last_block@.len() <= MAX_STATES
        &&& self.alias_to_id@.len() <= 0x1_0000_0000
        &&& forall|a: int|
            0 <= a < self.alias_to_id@.len() ==> (#[trigger] self.alias_to_id@[a] as int)
                < self.num_states()
        &&& forall|i: int, j: int|
            0 <= i < j < self.generations@.len() ==> gen_key(#[trigger] self.generations@[i])
                != gen_key(#[trigger] self.generations@[j])
        &&& forall|i: int|
            0 <= i < self.generations@.len() ==> ((#[trigger] self.generations@[i].state as int)
                < self.num_states() && self.generations@[i].vaddr != 0
                && self.generations@[i].count >= 1)
        &&& self.state_graph.wf()
        &&& self.block_graph.wf()
    }

    /// A fresh tracker: state 0 exists, is denoted by alias 0, has no
    /// recorded block and no predecessor; both graphs are empty.
    pub fn new() -> (r: StateTracker)
        ensures
            r.wf(),
            r.num_states() == 1,
            r.alias_to_id@ == seq![0u32],
            r.last_block@ == seq![0u64],
            r.predecessor@ == seq![NO_PREDECESSOR],
            r.gens() == Map::<(u32, u64), u8>::empty(),
            r.state_graph.spec_is_empty(),
            r.block_graph.spec_is_empty(),
            r.state_graph.edges == 0,
            r.block_graph.edges == 0,
            forall|x: u64| !r.state_graph.has_node(x),
            forall|x: u64| !r.block_graph.has_node(x),
            !r.block_seen,
    {
        let mut alias_to_id: Vec<u32> = Vec::new();
        alias_to_id.push(0);
        let mut last_block: Vec<u64> = Vec::new();
        last_block.push(0);
        let mut predecessor: Vec<u32> = Vec::new();
        predecessor.push(NO_PREDECESSOR);
        let r = StateTracker {
            alias_to_id,
            last_block,
            predecessor,
            generations: Vec::new(),
            state_graph: Graph::new(),
            block_graph: Graph::new(),
            block_seen: false,
        };
        proof {
            assert(r.alias_to_id@ =~= seq![0u32]);
            assert(r.last_block@ =~= seq![0u64]);
            assert(r.predecessor@ =~= seq![NO_PREDECESSOR]);
        }
        r
    }

    /// The permanent identity an alias currently denotes.
    pub fn resolve(&self, alias: u32) -> (r: u32)
        requires
            self.wf(),
            (alias as int) < self.alias_to_id@.len(),
        ensures
            r == self.alias_to_id@[alias as int],
            (r as int) < self.num_states(),
    {
        self.alias_to_id[alias as usize]
    }

    pub fn state_count(&self) -> (r: usize)
        ensures
            r == self.num_states(),
    {
        self.last_block.len()
    }

    pub fn alias_count(&self) -> (r: usize)
        ensures
            r == self.alias_to_id@.len(),
    {
        self.alias_to_id.len()
    }

    pub fn last_block_of(&self, state: u32) -> (r: u64)
        requires
            self.wf(),
            (state as int) < self.num_states(),
        ensures
            r == self.last_block@[state as int],
    {
        self.last_block[state as usize]
    }

    pub fn predecessor_of(&self, state: u32) -> (r: u32)
        requires
            self.wf(),
            (state as int) < self.num_states(),
        ensures
            r == self.predecessor@[state as int],
    {
        self.predecessor[state as usize]
    }

    /// How many times `vaddr` has been translated under `state`; zero if
    /// never.
    pub fn generation(&self, state: u32, vaddr: u64) -> (r: u8)
        requires
            self.wf(),
        ensures
            r == if self.gens().contains_key((state, vaddr)) {
                self.gens()[(state, vaddr)]
            } else {
                0u8
            },
    {
        match self.find_gen(state, vaddr) {
            Some(i) => {
                proof {
                    lemma_gen_map_value(self.generations@, i as int);
                }
                self.generations[i].count
            },
            None => {
                proof {
                    lemma_gen_map_contains(self.generations@, (state, vaddr));
                }
                0
            },
        }
    }

    /// Records a merge of the state `other_alias` denotes into the state
    /// `base_alias` denotes: one lineage edge `other -> base`, nothing
    /// unified and nothing removed. Returns true iff the edge was new.
    pub fn on_merge(&mut self, base_alias: u32, other_alias: u32) -> (r: bool)
        requires
            old(self).wf(),
            (base_alias as int) < old(self).alias_to_id@.len(),
            (other_alias as int) < old(self).alias_to_id@.len(),
            old(self).state_graph.edges < u64::MAX,
        ensures
            final(self).wf(),
            Graph::updated(
                old(self).state_graph,
                final(self).state_graph,
                old(self).alias_to_id@[other_alias as int] as u64,
                old(self).alias_to_id@[base_alias as int] as u64,
                r,
            ),
            final(self).alias_to_id@ == old(self).alias_to_id@,
            final(self).last_block@ == old(self).last_block@,
            final(self).predecessor@ == old(self).predecessor@,
            final(self).generations@ == old(self).generations@,
            final(self).block_graph == old(self).block_graph,
            final(self).block_seen == old(self).block_seen,
    {
        let base_id: u32 = self.alias_to_id[base_alias as usize];
        let other_id: u32 = self.alias_to_id[other_alias as usize];
        self.state_graph.update(other_id as u64, base_id as u64)
    }

    /// Counts one more translation of `vaddr` under the state `alias`
    /// denotes: the pair's generation rises from zero to one on first
    /// translation and saturates at 255. Nothing else changes; the extra
    /// payload of the callback is informational only.
    pub fn on_translate(
        &mut self,
        alias: u32,
        vaddr: u64,
        _block: Option<&[u8]>,
        _module_path: Option<&str>,
        _module_offset: Option<u64>,
    )
        requires
            old(self).wf(),
            (alias as int) < old(self).alias_to_id@.len(),
            vaddr != 0,
        ensures
            final(self).wf(),
            final(self).gens() == old(self).gens().insert(
                (old(self).alias_to_id@[alias as int], vaddr),
                gen_bump(old(self).gens(), (old(self).alias_to_id@[alias as int], vaddr)),
            ),
            final(self).alias_to_id@ == old(self).alias_to_id@,
            final(self).last_block@ == old(self).last_block@,
            final(self).predecessor@ == old(self).predecessor@,
            final(self).state_graph == old(self).state_graph,
            final(self).block_graph == old(self).block_graph,
            final(self).block_seen == old(self).block_seen,
    {
        let state: u32 = self.alias_to_id[alias as usize];
        let ghost key = (state, vaddr);
        match self.find_gen(state, vaddr) {
            Some(i) => {
                let c: u8 = self.generations[i].count;
                let c2: u8 = if c < 255 {
                    c + 1
                } else {
                    c
                };
                proof {
                    lemma_gen_map_value(self.generations@, i as int);
                }
                let ghost pre = self.generations@;
                self.generations[i] = GenEntry { state, vaddr, count: c2 };
                proof {
                    lemma_gen_map_update(pre, i as int, GenEntry { state, vaddr, count: c2 });
                    assert(self.gens() =~= old(self).gens().insert(
                        key,
                        gen_bump(old(self).gens(), key),
                    ));
                }
            },
            None => {
                proof {
                    lemma_gen_map_contains(self.generations@, key);
                }
                let ghost pre = self.generations@;
                self.generations.push(GenEntry { state, vaddr, count: 1 });
                proof {
                    assert(self.generations@.drop_last() =~= pre);
                    assert(self.gens() =~= old(self).gens().insert(
                        key,
                        gen_bump(old(self).gens(), key),
                    ));
                    assert forall|p: int, q: int|
                        0 <= p < q < self.generations@.len() implies gen_key(
                        #[trigger] self.generations@[p],
                    ) != gen_key(#[trigger] self.generations@[q]) by {
                        if q == self.generations@.len() - 1 {
                            assert(gen_key(pre[p]) != key);
                        }
                    }
                }
            },
        }
    }

    /// Index of the generation entry for `(state, vaddr)`, if one exists.
    fn find_gen(&self, state: u32, vaddr: u64) -> (r: Option<usize>)
        ensures
            match r {
                Some(i) => i < self.generations@.len() && gen_key(self.generations@[i as int]) == (
                (state, vaddr)),
                None => forall|j: int|
                    0 <= j < self.generations@.len() ==> gen_key(#[trigger] self.generations@[j])
                        != ((state, vaddr)),
            },
    {
        let n: usize = self.generations.len();
        let mut i: usize = 0;
        while i < n
            invariant
                n == self.generations@.len(),
                i <= n,
                forall|j: int|
                    0 <= j < i ==> gen_key(#[trigger] self.generations@[j]) != ((state, vaddr)),
            decreases n - i,
        {
            if self.generations[i].state == state && self.generations[i].vaddr == vaddr {
                return Some(i);
            }
            i += 1;
        }
        None
    }

    /// Records that the state `alias` denotes started executing the block at
    /// `vaddr`. The very first block of the whole session, observed by state
    /// 0, only sets the position; every later call moves the state's position
    /// and records a block-transition edge from the previous position.
    /// Returns true iff a new edge was recorded.
    pub fn on_block_start(&mut self, alias: u32, vaddr: u64) -> (r: bool)
        requires
            old(self).wf(),
            (alias as int) < old(self).alias_to_id@.len(),
            vaddr != 0,
            old(self).block_graph.edges < u64::MAX,
        ensures
            final(self).wf(),
            final(self).block_seen,
            final(self).alias_to_id@ == old(self).alias_to_id@,
            final(self).predecessor@ == old(self).predecessor@,
            final(self).generations@ == old(self).generations@,
            final(self).state_graph == old(self).state_graph,
            final(self).last_block@ == old(self).last_block@.update(
                old(self).alias_to_id@[alias as int] as int,
                vaddr,
            ),
            (old(self).alias_to_id@[alias as int] == 0 && !old(self).block_seen) ==> (final(self).block_graph
                == old(self).block_graph && r == false),
            !(old(self).alias_to_id@[alias as int] == 0 && !old(self).block_seen)
                ==> Graph::updated(
                old(self).block_graph,
                final(self).block_graph,
                old(self).last_block@[old(self).alias_to_id@[alias as int] as int],
                vaddr,
                r,
            ),
    {
        let sid: u32 = self.alias_to_id[alias as usize];
        if sid == 0 && !self.block_seen {
            self.last_block[sid as usize] = vaddr;
            self.block_seen = true;
            false
        } else {
            let prev: u64 = self.last_block[sid as usize];
            self.last_block[sid as usize] = vaddr;
            self.block_seen = true;
            self.block_graph.update(prev, vaddr)
        }
    }
}

/// One step of alias reassignment during a fork: alias `a` comes to denote
/// `id`, growing the table when `a` is the first alias past its end.
pub open spec fn fork_step(t: Seq<u32>, a: u32, id: u32) -> Seq<u32> {
    if (a as int) == t.len() {
        t.push(id)
    } else {
        t.update(a as int, id)
    }
}

/// The alias table after a fork assigned the identities `first_id`,
/// `first_id + 1`, ... to the aliases of `na`, in order.
pub open spec fn fork_alias_table(t: Seq<u32>, first_id: u32, na: Seq<u32>) -> Seq<u32>
    decreases na.len(),
{
    if na.len() == 0 {
        t
    } else {
        fork_step(
            fork_alias_table(t, first_id, na.drop_last()),
            na.last(),
            (first_id + na.len() - 1) as u32,
        )
    }
}

/// The host kept the alias-growth contract: no alias of `na` lies strictly
/// beyond the table as it stands when that alias is processed.
pub open spec fn fork_ok(t: Seq<u32>, first_id: u32, na: Seq<u32>) -> bool
    decreases na.len(),
{
    if na.len() == 0 {
        true
    } else {
        fork_ok(t, first_id, na.drop_last()) && (na.last() as int) <= fork_alias_table(
            t,
            first_id,
            na.drop_last(),
        ).len()
    }
}

/// A valid fork list is valid in every prefix.
proof fn lemma_fork_ok_prefix(t: Seq<u32>, fid: u32, na: Seq<u32>, j: int)
    requires
        0 <= j <= na.len(),
        fork_ok(t, fid, na),
    ensures
        fork_ok(t, fid, na.take(j)),
    decreases na.len(),
{
    if j == na.len() {
        assert(na.take(j) =~= na);
    } else {
        lemma_fork_ok_prefix(t, fid, na.drop_last(), j);
        assert(na.drop_last().take(j) =~= na.take(j));
    }
}

impl StateTracker {
    /// How one `on_fork(old_alias, na)` call relates the tracker before the
    /// call to the tracker after it: `na.len()` fresh identities are
    /// allocated in order, each inheriting the parent's position and
    /// recording the parent as predecessor and as lineage ancestor, while
    /// the aliases of `na` are redirected to the fresh identities.
    pub open spec fn fork_post(pre: StateTracker, post: StateTracker, old_alias: u32, na: Seq<u32>) -> bool {
        let n0 = pre.num_states();
        let old_id = pre.alias_to_id@[old_alias as int];
        let k = na.len() as int;
        &&& post.num_states() == n0 + k
        &&& post.alias_to_id@ == fork_alias_table(pre.alias_to_id@, n0 as u32, na)
        &&& forall|s: int| 0 <= s < n0 ==> (#[trigger] post.last_block@[s]) == pre.last_block@[s]
        &&& forall|s: int|
            0 <= s < n0 ==> (#[trigger] post.predecessor@[s]) == pre.predecessor@[s]
        &&& forall|s: int|
            n0 <= s < n0 + k ==> (#[trigger] post.last_block@[s]) == pre.last_block@[old_id as int]
        &&& forall|s: int| n0 <= s < n0 + k ==> (#[trigger] post.predecessor@[s]) == old_id
        &&& forall|x: u64, y: u64|
            #[trigger] post.state_graph.has_edge(x, y) == (pre.state_graph.has_edge(x, y) || (x
                == old_id as u64 && n0 <= (y as int) < n0 + k))
        &&& forall|x: u64|
            #[trigger] post.state_graph.has_node(x) == (pre.state_graph.has_node(x) || x
                == old_id as u64 || n0 <= (x as int) < n0 + k)
        &&& post.generations@ == pre.generations@
        &&& post.block_graph == pre.block_graph
        &&& post.block_seen == pre.block_seen
    }

    /// Resolves `old_alias`, allocates one fresh state identity per alias of
    /// `new_aliases` in order, redirects those aliases, and records one
    /// lineage edge from the parent to each fresh identity. Each fresh state
    /// inherits the parent's current control-flow position. Rejects the call
    /// and leaves the tracker untouched when an alias lies strictly beyond
    /// the alias table as it stands when processed.
    #[verifier::loop_isolation(false)]
    pub fn on_fork(&mut self, old_alias: u32, new_aliases: &Vec<u32>) -> (r: Result<
        (),
        ContractViolation,
    >)
        requires
            old(self).wf(),
            (old_alias as int) < old(self).alias_to_id@.len(),
            new_aliases@.len() >= 1,
            old(self).num_states() + new_aliases@.len() <= MAX_STATES,
            old(self).state_graph.edges as int + new_aliases@.len() <= u64::MAX,
        ensures
            final(self).wf(),
            (r is Ok) == fork_ok(
                old(self).alias_to_id@,
                old(self).num_states() as u32,
                new_aliases@,
            ),
            r is Err ==> *final(self) == *old(self),
            r is Ok ==> StateTracker::fork_post(*old(self), *final(self), old_alias, new_aliases@),
    {
        let old_id: u32 = self.alias_to_id[old_alias as usize];
        let inherit: u64 = self.last_block[old_id as usize];
        let n0: usize = self.last_block.len();
        let k: usize = new_aliases.len();
        let ghost t0 = self.alias_to_id@;
        let ghost fid = n0 as u32;
        let ghost na = new_aliases@;

        // First pass: check the alias-growth contract before touching
        // anything, so a violation leaves the tracker as it was.
        let mut rl: u64 = self.alias_to_id.len() as u64;
        let mut j: usize = 0;
        while j < k
            invariant
                j <= k,
                rl == fork_alias_table(t0, fid, na.take(j as int)).len(),
                rl <= 0x1_0000_0000u64,
                fork_ok(t0, fid, na.take(j as int)),
            decreases k - j,
        {
            let a: u32 = new_aliases[j];
            proof {
                assert(na.take(j as int + 1).drop_last() =~= na.take(j as int));
                assert(na.take(j as int + 1).last() == na[j as int]);
            }
            if (a as u64) > rl {
                proof {
                    assert(!fork_ok(t0, fid, na.take(j as int + 1)));
                    if fork_ok(t0, fid, na) {
                        lemma_fork_ok_prefix(t0, fid, na, j as int + 1);
                        assert(false);
                    }
                }
                return Err(ContractViolation);
            }
            if (a as u64) == rl {
                rl = rl + 1;
            }
            j += 1;
        }
        proof {
            assert(na.take(k as int) =~= na);
        }

        // Second pass: allocate and wire up the fresh identities.
        let mut j2: usize = 0;
        while j2 < k
            invariant
                j2 <= k,
                self.alias_to_id@ == fork_alias_table(t0, fid, na.take(j2 as int)),
                self.alias_to_id@.len() <= 0x1_0000_0000,
                forall|a: int|
                    0 <= a < self.alias_to_id@.len() ==> (#[trigger] self.alias_to_id@[a] as int)
                        < n0 + j2,
                self.last_block@.len() == n0 + j2,
                self.predecessor@.len() == n0 + j2,
                forall|s: int|
                    0 <= s < n0 ==> (#[trigger] self.last_block@[s]) == old(self).last_block@[s],
                forall|s: int|
                    0 <= s < n0 ==> (#[trigger] self.predecessor@[s]) == old(
                        self,
                    ).predecessor@[s],
                forall|s: int| n0 <= s < n0 + j2 ==> (#[trigger] self.last_block@[s]) == inherit,
                forall|s: int| n0 <= s < n0 + j2 ==> (#[trigger] self.predecessor@[s]) == old_id,
                self.state_graph.wf(),
                self.state_graph.edges as int <= old(self).state_graph.edges as int + j2,
                forall|x: u64, y: u64|
                    #[trigger] self.state_graph.has_edge(x, y) == (old(
                        self,
                    ).state_graph.has_edge(x, y) || (x == old_id as u64 && n0 <= (y as int) < n0
                        + j2)),
                forall|x: u64|
                    #[trigger] self.state_graph.has_node(x) == (old(self).state_graph.has_node(x)
                        || (x == old_id as u64 && j2 > 0) || n0 <= (x as int) < n0 + j2),
                self.generations@ == old(self).generations@,
                self.block_graph == old(self).block_graph,
                self.block_seen == old(self).block_seen,
            decreases k - j2,
        {
            let a: u32 = new_aliases[j2];
            let new_id: u32 = (n0 + j2) as u32;
            proof {
                lemma_fork_ok_prefix(t0, fid, na, j2 as int + 1);
                assert(na.take(j2 as int + 1).drop_last() =~= na.take(j2 as int));
                assert(na.take(j2 as int + 1).last() == na[j2 as int]);
                assert((a as int) <= self.alias_to_id@.len());
            }
            self.last_block.push(inherit);
            self.predecessor.push(old_id);
            let tbl_len: usize = self.alias_to_id.len();
            let ghost table_before = self.alias_to_id@;
            if (a as usize) == tbl_len {
                self.alias_to_id.push(new_id);
            } else {
                self.alias_to_id[a as usize] = new_id;
            }
            proof {
                assert(self.alias_to_id@ =~= fork_step(table_before, a, new_id));
                assert((fid + na.take(j2 as int + 1).len() - 1) as u32 == new_id);
                assert(self.alias_to_id@ =~= fork_alias_table(t0, fid, na.take(j2 as int + 1)));
            }
            let ghost sg_mid = self.state_graph;
            let _ = self.state_graph.update(old_id as u64, new_id as u64);
            proof {
                assert forall|x: u64, y: u64|
                    #[trigger] self.state_graph.has_edge(x, y) == (old(
                        self,
                    ).state_graph.has_edge(x, y) || (x == old_id as u64 && n0 <= (y as int) < n0
                        + j2 + 1)) by {
                    assert(self.state_graph.has_edge(x, y) == (sg_mid.has_edge(x, y) || (x
                        == old_id as u64 && y == new_id as u64)));
                }
                assert forall|x: u64|
                    #[trigger] self.state_graph.has_node(x) == (old(self).state_graph.has_node(x)
                        || (x == old_id as u64 && j2 + 1 > 0) || n0 <= (x as int) < n0 + j2
                        + 1) by {
                    assert(self.state_graph.has_node(x) == (sg_mid.has_node(x) || x
                        == old_id as u64 || x == new_id as u64));
                }
            }
            j2 += 1;
        }
        proof {
            assert(na.take(k as int) =~= na);
            assert(self.alias_to_id@ == fork_alias_table(t0, fid, na));
        }
        Ok(())
    }
}

impl StateTracker {
    /// Both graphs encoded for the observer, unconditionally, as one
    /// consistent pair: the lineage snapshot, then the block snapshot. Used
    /// for the final flush at shutdown.
    pub fn flush_messages(&self) -> (r: Vec<IpcMessage>)
        requires
            self.wf(),
        ensures
            r@.len() == 2,
            r@[0].describes(self.state_graph, "symbolic states"@),
            r@[1].describes(self.block_graph, "basic blocks"@),
    {
        let mut out: Vec<IpcMessage> = Vec::new();
        let lineage = GraphIpc::from_graph(&self.state_graph);
        out.push(IpcMessage::GraphSnapshot { name: "symbolic states".to_owned(), graph: lineage });
        let blocks = GraphIpc::from_graph(&self.block_graph);
        out.push(IpcMessage::GraphSnapshot { name: "basic blocks".to_owned(), graph: blocks });
        out
    }

    /// One periodic snapshot tick: nothing is sent while neither graph has
    /// ever received an edge; afterwards every tick sends both graphs, as
    /// exactly two messages.
    pub fn snapshot_messages(&self) -> (r: Vec<IpcMessage>)
        requires
            self.wf(),
        ensures
            (self.state_graph.spec_is_empty() && self.block_graph.spec_is_empty()) ==> r@.len()
                == 0,
            !(self.state_graph.spec_is_empty() && self.block_graph.spec_is_empty()) ==> (r@.len()
                == 2 && r@[0].describes(self.state_graph, "symbolic states"@) && r@[1].describes(
                self.block_graph,
                "basic blocks"@,
            )),
    {
        if self.state_graph.is_empty() && self.block_graph.is_empty() {
            Vec::new()
        } else {
            self.flush_messages()
        }
    }
}

/// Forking never loses lineage: every lineage edge present before an
/// `on_fork` call is still present after it, and every lineage node
/// survives. Alias reuse changes what an alias denotes, never recorded
/// history.
pub proof fn lemma_fork_preserves_lineage(
    pre: StateTracker,
    post: StateTracker,
    old_alias: u32,
    na: Seq<u32>,
)
    requires
        StateTracker::fork_post(pre, post, old_alias, na),
    ensures
        forall|x: u64, y: u64|
            pre.state_graph.has_edge(x, y) ==> #[trigger] post.state_graph.has_edge(x, y),
        forall|x: u64| pre.state_graph.has_node(x) ==> #[trigger] post.state_graph.has_node(x),
{
}

/// Merging is additive, not unifying: it records the one lineage edge
/// `other -> base`, removes nothing, and leaves both states distinct nodes
/// of the lineage graph.
pub proof fn lemma_merge_additive(
    pre: StateTracker,
    post: StateTracker,
    other_id: u64,
    base_id: u64,
    r: bool,
)
    requires
        Graph::updated(pre.state_graph, post.state_graph, other_id, base_id, r),
    ensures
        post.state_graph.has_edge(other_id, base_id),
        forall|x: u64, y: u64|
            pre.state_graph.has_edge(x, y) ==> #[trigger] post.state_graph.has_edge(x, y),
        forall|x: u64, y: u64|
            #[trigger] post.state_graph.has_edge(x, y) && !(x == other_id && y == base_id)
                ==> pre.state_graph.has_edge(x, y),
        post.state_graph.has_node(other_id),
        post.state_graph.has_node(base_id),
        post.state_graph.edges as int <= pre.state_graph.edges as int + 1,
{
}

/// Generation counting: a never-translated pair counts 1, 2, 3 over three
/// translations, and translating one pair never disturbs any other pair.
pub proof fn lemma_generation_counting(m0: Map<(u32, u64), u8>, key: (u32, u64))
    requires
        !m0.contains_key(key),
    ensures
        ({
            let m1 = m0.insert(key, gen_bump(m0, key));
            let m2 = m1.insert(key, gen_bump(m1, key));
            let m3 = m2.insert(key, gen_bump(m2, key));
            &&& m1[key] == 1
            &&& m2[key] == 2
            &&& m3[key] == 3
            &&& forall|k2: (u32, u64)|
                k2 != key ==> ((#[trigger] m3.contains_key(k2)) == m0.contains_key(k2) && (
                m0.contains_key(k2) ==> m3[k2] == m0[k2]))
        }),
{
}

/// A freshly forked state inherits its parent's control-flow position: after
/// the parent forks one new alias, the fresh identity is the old state
/// count, its recorded position is the parent's, and its first block start
/// records a block edge from that inherited position.
pub proof fn lemma_fork_inherits_position(
    t0: StateTracker,
    t1: StateTracker,
    t2: StateTracker,
    old_alias: u32,
    new_alias: u32,
    y: u64,
    r: bool,
)
    requires
        t0.wf(),
        (old_alias as int) < t0.alias_to_id@.len(),
        (new_alias as int) <= t0.alias_to_id@.len(),
        StateTracker::fork_post(t0, t1, old_alias, seq![new_alias]),
        Graph::updated(
            t1.block_graph,
            t2.block_graph,
            t1.last_block@[t1.alias_to_id@[new_alias as int] as int],
            y,
            r,
        ),
    ensures
        t1.alias_to_id@[new_alias as int] as int == t0.num_states(),
        t1.last_block@[t1.alias_to_id@[new_alias as int] as int]
            == t0.last_block@[t0.alias_to_id@[old_alias as int] as int],
        t2.block_graph.has_edge(
            t0.last_block@[t0.alias_to_id@[old_alias as int] as int],
            y,
        ),
{
    let na = seq![new_alias];
    let fid = t0.num_states() as u32;
    assert(na.drop_last() =~= Seq::<u32>::empty());
    assert(fork_alias_table(t0.alias_to_id@, fid, na.drop_last()) == t0.alias_to_id@);
    assert((fid + na.len() - 1) as u32 == fid);
    assert(t1.alias_to_id@ == fork_step(t0.alias_to_id@, new_alias, fid));
    assert(t1.alias_to_id@[new_alias as int] == fid);
}

/// The generation map has a key exactly when some entry carries it.
proof fn lemma_gen_map_contains(s: Seq<GenEntry>, key: (u32, u64))
    ensures
        gen_map(s).contains_key(key) == exists|i: int| 0 <= i < s.len() && gen_key(#[trigger] s[i])
            == key,
    decreases s.len(),
{
    if s.len() > 0 {
        lemma_gen_map_contains(s.drop_last(), key);
        if gen_key(s.last()) == key {
            assert(gen_key(s[s.len() - 1]) == key);
        } else {
            if exists|i: int| 0 <= i < s.drop_last().len() && gen_key(#[trigger] s.drop_last()[i])
                == key {
                let i = choose|i: int|
                    0 <= i < s.drop_last().len() && gen_key(#[trigger] s.drop_last()[i]) == key;
                assert(gen_key(s[i]) == key);
            }
            if exists|i: int| 0 <= i < s.len() && gen_key(#[trigger] s[i]) == key {
                let i = choose|i: int| 0 <= i < s.len() && gen_key(#[trigger] s[i]) == key;
                assert(gen_key(s.drop_last()[i]) == key);
            }
        }
    }
}

/// With pairwise distinct keys, the map's value at an entry's key is that
/// entry's counter.
proof fn lemma_gen_map_value(s: Seq<GenEntry>, i: int)
    requires
        0 <= i < s.len(),
        forall|p: int, q: int|
            0 <= p < q < s.len() ==> gen_key(#[trigger] s[p]) != gen_key(#[trigger] s[q]),
    ensures
        gen_map(s).contains_key(gen_key(s[i])),
        gen_map(s)[gen_key(s[i])] == s[i].count,
    decreases s.len(),
{
    if i == s.len() - 1 {
    } else {
        assert(gen_key(s[i]) != gen_key(s[s.len() - 1]));
        lemma_gen_map_value(s.drop_last(), i);
        assert(s.drop_last()[i] == s[i]);
    }
}

/// Overwriting the entry at `i` with one carrying the same key updates the
/// map at that key alone.
proof fn lemma_gen_map_update(s: Seq<GenEntry>, i: int, e: GenEntry)
    requires
        0 <= i < s.len(),
        gen_key(e) == gen_key(s[i]),
        forall|p: int, q: int|
            0 <= p < q < s.len() ==> gen_key(#[trigger] s[p]) != gen_key(#[trigger] s[q]),
    ensures
        gen_map(s.update(i, e)) =~= gen_map(s).insert(gen_key(e), e.count),
    decreases s.len(),
{
    let t = s.update(i, e);
    if i == s.len() - 1 {
        assert(t.drop_last() =~= s.drop_last());
        assert(t.last() == e);
    } else {
        assert(t.drop_last() =~= s.drop_last().update(i, e));
        assert(s.drop_last()[i] == s[i]);
        lemma_gen_map_update(s.drop_last(), i, e);
        assert(t.last() == s.last());
        assert(gen_key(s.last()) != gen_key(e)) by {
            assert(gen_key(s[i]) != gen_key(s[s.len() - 1]));
        }
    }
}

} // verus!
