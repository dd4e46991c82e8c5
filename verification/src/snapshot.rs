use vstd::prelude::*;

use crate::graph::Graph;

verus! {

/// Transmissible structural copy of a [`Graph`]: a node list and an edge
/// list, self-contained and detached from the live adjacency storage, so a
/// snapshot can be shipped while the graph keeps changing.
pub struct GraphIpc {
    pub nodes: Vec<u64>,
    pub edges: Vec<(u64, u64)>,
}

/// One message of the observer protocol. Snapshots are pushed
/// fire-and-forget; a snapshot names the graph it carries.
pub enum IpcMessage {
    GraphSnapshot { name: String, graph: GraphIpc },
}

/// Outcome of a transport operation on the observer channel: the peer either
/// closed in an orderly fashion or the transport failed.
#[derive(Clone, Copy, Debug, PartialEq, Eq, Structural)]
pub enum IpcError {
    /// Orderly close by the peer.
    EndOfFile,
    /// Any other transport failure.
    Transport,
}

impl IpcMessage {
    /// The message is a faithful snapshot of `g`, sent under `name`.
    pub open spec fn describes(self, g: Graph, name: Seq<char>) -> bool {
        match self {
            IpcMessage::GraphSnapshot { name: n, graph: ipc } => {
                &&& n@ == name
                &&& ipc.wf()
                &&& forall|x: u64| #[trigger] ipc.nodes@.contains(x) == g.has_node(x)
                &&& forall|e: (u64, u64)| #[trigger] ipc.edges@.contains(e) == g.has_edge(e.0, e.1)
            },
        }
    }
}

impl GraphIpc {
    /// Well-formed: no node and no edge is listed twice, and every edge
    /// endpoint is a listed node.
    pub open spec fn wf(self) -> bool {
        &&& self.nodes@.no_duplicates()
        &&& self.edges@.no_duplicates()
        &&& forall|e: (u64, u64)| #[trigger]
            self.edges@.contains(e) ==> self.nodes@.contains(e.0) && self.nodes@.contains(e.1)
    }

    pub fn new() -> (r: GraphIpc)
        ensures
            r.wf(),
            r.nodes@ == Seq::<u64>::empty(),
            r.edges@ == Seq::<(u64, u64)>::empty(),
    {
        GraphIpc { nodes: Vec::new(), edges: Vec::new() }
    }

    /// Encodes the graph: the node list carries exactly the graph's nodes and
    /// the edge list exactly its edges, each exactly once.
    pub fn from_graph(g: &Graph) -> (r: GraphIpc)
        requires
            g.wf(),
        ensures
            r.wf(),
            forall|n: u64| #[trigger] r.nodes@.contains(n) == g.has_node(n),
            forall|e: (u64, u64)| #[trigger] r.edges@.contains(e) == g.has_edge(e.0, e.1),
            r.nodes@.len() == g.adj@.len(),
            r.edges@.len() == g.edges,
    {
        let mut nodes: Vec<u64> = Vec::new();
        let mut edges: Vec<(u64, u64)> = Vec::new();
        let n: usize = g.adj.len();
        let mut i: usize = 0;
        while i < n
            invariant
                g.wf(),
                n == g.adj@.len(),
                i <= n,
                nodes@.len() == i,
                forall|j: int| 0 <= j < i ==> nodes@[j] == (#[trigger] g.adj@[j]).0,
                edges@.no_duplicates(),
                edges@.len() == Graph::edge_sum(g.adj@.take(i as int)),
                forall|e: (u64, u64)| #[trigger]
                    edges@.contains(e) == exists|j: int|
                        0 <= j < i && (#[trigger] g.adj@[j]).0 == e.0
                            && g.adj@[j].1.set().contains(e.1),
            decreases n - i,
        {
            let key: u64 = g.adj[i].0;
            nodes.push(key);
            let m: usize = g.adj[i].1.len();
            let mut k: usize = 0;
            while k < m
                invariant
                    g.wf(),
                    n == g.adj@.len(),
                    i < n,
                    key == g.adj@[i as int].0,
                    m == g.adj@[i as int].1.seq().len(),
                    k <= m,
                    edges@.no_duplicates(),
                    edges@.len() == Graph::edge_sum(g.adj@.take(i as int)) + k,
                    forall|e: (u64, u64)| #[trigger]
                        edges@.contains(e) == ((exists|j: int|
                            0 <= j < i && (#[trigger] g.adj@[j]).0 == e.0
                                && g.adj@[j].1.set().contains(e.1)) || (e.0 == key && exists|q: int|
                            0 <= q < k && g.adj@[i as int].1.seq()[q] == e.1)),
                decreases m - k,
            {
                let b: u64 = g.adj[i].1.get(k);
                let e: (u64, u64) = (key, b);
                proof {
                    // `e` is not yet listed: an earlier entry would repeat the
                    // node id, an earlier successor would repeat an element.
                    if edges@.contains(e) {
                        if exists|j: int|
                            0 <= j < i && (#[trigger] g.adj@[j]).0 == e.0
                                && g.adj@[j].1.set().contains(e.1) {
                            let j = choose|j: int|
                                0 <= j < i && (#[trigger] g.adj@[j]).0 == e.0
                                    && g.adj@[j].1.set().contains(e.1);
                            assert(g.adj@[j].0 == g.adj@[i as int].0);
                            assert(false);
                        } else {
                            let q = choose|q: int|
                                0 <= q < k && g.adj@[i as int].1.seq()[q] == e.1;
                            assert(g.adj@[i as int].1.seq()[q] == g.adj@[i as int].1.seq()[
                                k as int]);
                            assert(false);
                        }
                    }
                    lemma_push_no_duplicates(edges@, e);
                }
                let ghost pre_edges = edges@;
                edges.push(e);
                proof {
                    assert(g.adj@[i as int].1.seq().contains(b));
                    assert forall|x: (u64, u64)| #[trigger]
                        edges@.contains(x) == (pre_edges.contains(x) || x == e) by {
                        lemma_push_contains(pre_edges, e, x);
                    }
                }
                k += 1;
            }
            proof {
                assert(g.adj@.take(i as int + 1).drop_last() =~= g.adj@.take(i as int));
                assert(g.adj@.take(i as int + 1).last() == g.adj@[i as int]);
                g.adj@[i as int].1.seq().unique_seq_to_set();
                assert forall|e: (u64, u64)| #[trigger]
                    edges@.contains(e) == exists|j: int|
                        0 <= j < i + 1 && (#[trigger] g.adj@[j]).0 == e.0
                            && g.adj@[j].1.set().contains(e.1) by {
                    if e.0 == key && g.adj@[i as int].1.set().contains(e.1) {
                        assert(g.adj@[i as int].1.seq().contains(e.1));
                    }
                    if exists|q: int|
                        0 <= q < g.adj@[i as int].1.seq().len() && g.adj@[i as int].1.seq()[q]
                            == e.1 {
                        assert(g.adj@[i as int].1.set().contains(e.1));
                    }
                }
            }
            i += 1;
        }
        proof {
            assert(g.adj@.take(n as int) =~= g.adj@);
            assert forall|nd: u64| #[trigger] nodes@.contains(nd) == g.has_node(nd) by {
                if nodes@.contains(nd) {
                    let j = choose|j: int| 0 <= j < nodes@.len() && nodes@[j] == nd;
                    assert(g.adj@[j].0 == nd);
                }
                if g.has_node(nd) {
                    let j = choose|j: int| 0 <= j < g.adj@.len() && (#[trigger] g.adj@[j]).0 == nd;
                    assert(nodes@[j] == nd);
                }
            }
            assert(nodes@.no_duplicates()) by {
                assert forall|p: int, q: int| 0 <= p < q < nodes@.len() implies nodes@[p] != nodes@[
                    q] by {
                    assert(nodes@[p] == g.adj@[p].0 && nodes@[q] == g.adj@[q].0);
                }
            }
            let r = GraphIpc { nodes, edges };
            assert forall|e: (u64, u64)| #[trigger]
                r.edges@.contains(e) implies r.nodes@.contains(e.0) && r.nodes@.contains(e.1) by {
                assert(g.has_edge(e.0, e.1));
                let j = choose|j: int|
                    0 <= j < g.adj@.len() && (#[trigger] g.adj@[j]).0 == e.0
                        && g.adj@[j].1.set().contains(e.1);
                assert(g.has_node(e.0));
                assert(g.has_node(e.1));
            }
        }
        GraphIpc { nodes, edges }
    }
}

/// Receiving-side accumulator: rebuilds a [`GraphIpc`] from nodes and edges
/// as they stream in, keeping each node and edge exactly once.
pub struct GraphIpcBuilder {
    pub ipc: GraphIpc,
}

impl GraphIpcBuilder {
    pub open spec fn wf(self) -> bool {
        self.ipc.wf()
    }

    pub fn new() -> (r: GraphIpcBuilder)
        ensures
            r.wf(),
            r.ipc.nodes@ == Seq::<u64>::empty(),
            r.ipc.edges@ == Seq::<(u64, u64)>::empty(),
    {
        GraphIpcBuilder { ipc: GraphIpc::new() }
    }

    /// Records a node; listed once no matter how often it streams in.
    pub fn add_node(&mut self, n: u64)
        requires
            old(self).wf(),
        ensures
            final(self).wf(),
            forall|m: u64| #[trigger]
                final(self).ipc.nodes@.contains(m) == (old(self).ipc.nodes@.contains(m) || m == n),
            final(self).ipc.edges@ == old(self).ipc.edges@,
    {
        let present = vec_contains_u64(&self.ipc.nodes, n);
        if !present {
            proof {
                lemma_push_no_duplicates(self.ipc.nodes@, n);
            }
            let ghost pre = self.ipc.nodes@;
            self.ipc.nodes.push(n);
            proof {
                assert forall|m: u64| #[trigger]
                    self.ipc.nodes@.contains(m) == (pre.contains(m) || m == n) by {
                    lemma_push_contains(pre, n, m);
                }
            }
        }
    }

    /// Records an edge together with both endpoints; listed once no matter
    /// how often it streams in.
    pub fn add_edge(&mut self, a: u64, b: u64)
        requires
            old(self).wf(),
        ensures
            final(self).wf(),
            forall|m: u64| #[trigger]
                final(self).ipc.nodes@.contains(m) == (old(self).ipc.nodes@.contains(m) || m == a
                    || m == b),
            forall|e: (u64, u64)| #[trigger]
                final(self).ipc.edges@.contains(e) == (old(self).ipc.edges@.contains(e) || e == (
                a,
                b,
                )),
    {
        self.add_node(a);
        self.add_node(b);
        let present = vec_contains_edge(&self.ipc.edges, a, b);
        if !present {
            proof {
                lemma_push_no_duplicates(self.ipc.edges@, (a, b));
            }
            let ghost pre = self.ipc.edges@;
            self.ipc.edges.push((a, b));
            proof {
                assert forall|e: (u64, u64)| #[trigger]
                    self.ipc.edges@.contains(e) == (pre.contains(e) || e == (a, b)) by {
                    lemma_push_contains(pre, (a, b), e);
                }
            }
        }
    }

    /// True iff nothing has streamed in yet.
    pub fn is_empty(&self) -> (r: bool)
        ensures
            r == (self.ipc.nodes@.len() == 0 && self.ipc.edges@.len() == 0),
    {
        self.ipc.nodes.len() == 0 && self.ipc.edges.len() == 0
    }

    /// Hands out the accumulated snapshot.
    pub fn finish(self) -> (r: GraphIpc)
        ensures
            r == self.ipc,
    {
        self.ipc
    }
}

fn vec_contains_u64(v: &Vec<u64>, x: u64) -> (r: bool)
    ensures
        r == v@.contains(x),
{
    let n: usize = v.len();
    let mut i: usize = 0;
    while i < n
        invariant
            n == v@.len(),
            i <= n,
            forall|j: int| 0 <= j < i ==> v@[j] != x,
        decreases n - i,
    {
        if v[i] == x {
            return true;
        }
        i += 1;
    }
    false
}

fn vec_contains_edge(v: &Vec<(u64, u64)>, a: u64, b: u64) -> (r: bool)
    ensures
        r == v@.contains((a, b)),
{
    let n: usize = v.len();
    let mut i: usize = 0;
    while i < n
        invariant
            n == v@.len(),
            i <= n,
            forall|j: int| 0 <= j < i ==> (#[trigger] v@[j]) != (a, b),
        decreases n - i,
    {
        if v[i].0 == a && v[i].1 == b {
            return true;
        }
        i += 1;
    }
    proof {
        if v@.contains((a, b)) {
            let j = choose|j: int| 0 <= j < v@.len() && v@[j] == (a, b);
            assert(v@[j] != (a, b));
        }
    }
    false
}

/// Membership in a sequence extended by one element.
proof fn lemma_push_contains<T>(s: Seq<T>, e: T, x: T)
    ensures
        s.push(e).contains(x) == (s.contains(x) || x == e),
{
    if s.contains(x) {
        let j = choose|j: int| 0 <= j < s.len() && s[j] == x;
        assert(s.push(e)[j] == x);
    }
    if x == e {
        assert(s.push(e)[s.len() as int] == x);
    }
    if s.push(e).contains(x) {
        let j = choose|j: int| 0 <= j < s.push(e).len() && s.push(e)[j] == x;
        if j < s.len() {
            assert(s[j] == x);
        }
    }
}

/// Pushing a fresh element keeps a sequence duplicate-free.
proof fn lemma_push_no_duplicates<T>(s: Seq<T>, e: T)
    requires
        s.no_duplicates(),
        !s.contains(e),
    ensures
        s.push(e).no_duplicates(),
{
    let t = s.push(e);
    assert forall|p: int, q: int| 0 <= p < q < t.len() implies t[p] != t[q] by {
        if q < s.len() {
            assert(t[p] == s[p] && t[q] == s[q]);
        } else {
            assert(t[q] == e);
            assert(t[p] == s[p]);
            assert(s.contains(s[p]));
        }
    }
}

} // verus!
