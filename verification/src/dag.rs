use vstd::prelude::*;

verus! {

/// Stable integer handle for a node. Handles are issued in increasing order
/// and reused, most recently freed first, after the node is removed.
pub type NodeId = usize;

/// The error values returned by the fallible graph operations.
#[derive(Debug, Clone, PartialEq, Eq)]
pub enum DagError {
    /// The referenced node id is out of range or tombstoned.
    NodeNotFound,
    /// The referenced edge does not exist.
    EdgeNotFound,
    /// A supplied node id is structurally invalid for the operation.
    InvalidNodeId,
    /// The inserted edge duplicates an existing one.
    EdgeAlreadyExists,
    /// The inserted edge would close a directed cycle.
    CycleDetected,
}

impl DagError {
    /// A short human-readable description of the error.
    pub fn message(&self) -> (r: String)
        ensures
            self is NodeNotFound ==> r@ == "Node Not Found"@,
            self is EdgeNotFound ==> r@ == "Edge Not Found"@,
            self is InvalidNodeId ==> r@ == "Invalid Node ID"@,
            self is EdgeAlreadyExists ==> r@ == "Edge Already Exists"@,
            self is CycleDetected ==> r@ == "Cycle Detected"@,
    {
        match self {
            DagError::NodeNotFound => "Node Not Found".to_owned(),
            DagError::EdgeNotFound => "Edge Not Found".to_owned(),
            DagError::InvalidNodeId => "Invalid Node ID".to_owned(),
            DagError::EdgeAlreadyExists => "Edge Already Exists".to_owned(),
            DagError::CycleDetected => "Cycle Detected".to_owned(),
        }
    }
}

/// Storage for one node handle: the payload (`None` once the slot is a
/// tombstone), the outgoing edge targets with their edge payloads, and the
/// incoming edge sources.
pub(crate) struct Slot<N, E> {
    pub(crate) data: Option<N>,
    pub(crate) out: Vec<NodeId>,
    pub(crate) out_data: Vec<E>,
    pub(crate) inn: Vec<NodeId>,
}

/// A directed acyclic graph over node payloads `N` and edge payloads `E`.
///
/// Nodes live in a dense slot table indexed by `NodeId`; removing a node
/// tombstones its slot and pushes the id on a free list, so all other
/// handles stay stable and the most recently freed id is reused first.
/// Every edge is recorded both in the source's outgoing list and in the
/// target's incoming list, and `add_edge` rejects any edge that would
/// close a cycle, so the graph is acyclic at all times.
pub struct Dag<N, E> {
    pub(crate) nodes: Vec<Slot<N, E>>,
    pub(crate) free: Vec<NodeId>,
}

impl<N, E> Dag<N, E> {
    /// Number of slots ever allocated (the high-water mark of issued ids).
    pub open(crate) spec fn slot_count(self) -> int {
        self.nodes@.len() as int
    }

    /// The id `i` names a node that currently exists.
    pub open(crate) spec fn node_alive(self, i: NodeId) -> bool {
        i < self.nodes@.len() && self.nodes@[i as int].data is Some
    }

    /// The directed edge `a -> b` currently exists.
    pub open(crate) spec fn edge_spec(self, a: NodeId, b: NodeId) -> bool {
        &&& self.node_alive(a)
        &&& self.node_alive(b)
        &&& self.nodes@[a as int].out@.contains(b)
    }

    /// The payload stored at node `i`.
    pub open(crate) spec fn node_data_spec(self, i: NodeId) -> N
        recommends
            self.node_alive(i),
    {
        self.nodes@[i as int].data->Some_0
    }

    /// The payload stored on the edge `a -> b`.
    pub open(crate) spec fn edge_data_spec(self, a: NodeId, b: NodeId) -> E
        recommends
            self.edge_spec(a, b),
    {
        self.nodes@[a as int].out_data@[self.nodes@[a as int].out@.index_of(b)]
    }

    /// The tombstoned ids available for reuse; the last entry is reused first.
    pub open(crate) spec fn free_list(self) -> Seq<NodeId> {
        self.free@
    }

    /// The set of ids of currently existing nodes.
    pub open(crate) spec fn live_nodes(self) -> Set<NodeId> {
        Set::new(|i: NodeId| self.node_alive(i))
    }

    /// The direct successors of `a`.
    pub open(crate) spec fn succ_of(self, a: NodeId) -> Set<NodeId> {
        Set::new(|b: NodeId| self.edge_spec(a, b))
    }

    /// The direct predecessors of `b`.
    pub open(crate) spec fn pred_of(self, b: NodeId) -> Set<NodeId> {
        Set::new(|a: NodeId| self.edge_spec(a, b))
    }

    /// Number of currently existing nodes.
    pub open(crate) spec fn node_count_spec(self) -> nat {
        self.live_nodes().len()
    }

    /// Number of edges into `b`.
    pub open(crate) spec fn in_degree_spec(self, b: NodeId) -> nat {
        self.pred_of(b).len()
    }

    /// Number of edges out of `a`.
    pub open(crate) spec fn out_degree_spec(self, a: NodeId) -> nat {
        self.succ_of(a).len()
    }

    /// An existing node with no incoming edge.
    pub open(crate) spec fn is_source(self, i: NodeId) -> bool {
        self.node_alive(i) && forall|a: NodeId| !self.edge_spec(a, i)
    }

    /// An existing node with no outgoing edge.
    pub open(crate) spec fn is_sink(self, i: NodeId) -> bool {
        self.node_alive(i) && forall|b: NodeId| !self.edge_spec(i, b)
    }

    /// Number of edges recorded in the slots `0 .. k`.
    pub open(crate) spec fn edge_count_upto(self, k: int) -> nat
        decreases k,
    {
        if k <= 0 {
            0
        } else {
            self.edge_count_upto(k - 1) + self.nodes@[k - 1].out@.len()
        }
    }

    /// Number of currently existing edges.
    pub open(crate) spec fn edge_count_spec(self) -> nat {
        self.edge_count_upto(self.nodes@.len() as int)
    }

    /// There is a directed path from `a` to `b` of at most `k` edges.
    pub open(crate) spec fn reach(self, a: NodeId, b: NodeId, k: nat) -> bool
        decreases k,
    {
        a == b || (k > 0 && exists|m: NodeId|
            self.edge_spec(a, m) && self.reach(m, b, (k - 1) as nat))
    }

    /// There is a directed path from `a` to `b` (including the empty path).
    pub open(crate) spec fn reachable(self, a: NodeId, b: NodeId) -> bool {
        exists|k: nat| self.reach(a, b, k)
    }

    /// No edge's target can reach back to its source: the graph has no
    /// directed cycle.
    pub open(crate) spec fn acyclic(self) -> bool {
        forall|a: NodeId, b: NodeId| #[trigger] self.edge_spec(a, b) ==> !self.reachable(b, a)
    }

    /// The slot at index `i` is internally consistent: duplicate-free
    /// adjacency lists over existing nodes, one payload per outgoing edge,
    /// and empty lists on tombstones.
    pub open(crate) spec fn slot_wf(self, i: int) -> bool {
        let s = self.nodes@[i];
        &&& s.out@.no_duplicates()
        &&& s.inn@.no_duplicates()
        &&& s.out_data@.len() == s.out@.len()
        &&& (forall|k: int| 0 <= k < s.out@.len() ==> self.node_alive(#[trigger] s.out@[k]))
        &&& (forall|k: int| 0 <= k < s.inn@.len() ==> self.node_alive(#[trigger] s.inn@[k]))
        &&& (s.data is None ==> s.out@.len() == 0 && s.inn@.len() == 0)
    }

    /// Every edge is recorded in both directions: `b` is listed among the
    /// successors of `a` exactly when `a` is listed among the predecessors
    /// of `b`.
    pub open(crate) spec fn mirrored(self) -> bool {
        forall|a: NodeId, b: NodeId|
            #![trigger self.nodes@[a as int].out@.contains(b)]
            #![trigger self.nodes@[b as int].inn@.contains(a)]
            a < self.nodes@.len() && b < self.nodes@.len() ==> (self.nodes@[a as int].out@.contains(
                b,
            ) <==> self.nodes@[b as int].inn@.contains(a))
    }

    /// The free list holds pairwise distinct tombstoned ids.
    pub open(crate) spec fn free_wf(self) -> bool {
        &&& self.free@.no_duplicates()
        &&& (forall|k: int|
            0 <= k < self.free@.len() ==> (#[trigger] self.free@[k]) < self.nodes@.len()
                && !self.node_alive(self.free@[k]))
    }

    /// The structural invariant of the graph store: consistent slots, the
    /// two adjacency directions mirror each other, a well-formed free list,
    /// and no directed cycle.
    pub open(crate) spec fn wf(self) -> bool {
        &&& (forall|i: int| 0 <= i < self.nodes@.len() ==> #[trigger] self.slot_wf(i))
        &&& self.mirrored()
        &&& self.free_wf()
        &&& self.acyclic()
    }

    /// Produces the empty graph store.
    pub fn new() -> (d: Self)
        ensures
            d.wf(),
            d.slot_count() == 0,
            d.free_list() == Seq::<NodeId>::empty(),
            forall|i: NodeId| !d.node_alive(i),
            forall|a: NodeId, b: NodeId| !d.edge_spec(a, b),
    {
        let d = Dag { nodes: Vec::new(), free: Vec::new() };
        proof {
            assert(d.free@ =~= Seq::<NodeId>::empty());
            lemma_no_edges_acyclic(d);
        }
        d
    }

    /// True exactly when `id` names a currently existing node; never fails.
    pub fn has_node(&self, id: NodeId) -> (r: bool)
        ensures
            r == self.node_alive(id),
    {
        id < self.nodes.len() && self.nodes[id].data.is_some()
    }

    /// True exactly when the edge `from -> to` currently exists; returns
    /// false (rather than failing) for dead or out-of-range endpoints.
    pub fn has_edge(&self, from: NodeId, to: NodeId) -> (r: bool)
        ensures
            r == self.edge_spec(from, to),
    {
        if !self.has_node(from) || !self.has_node(to) {
            return false;
        }
        contains_id(&self.nodes[from].out, to)
    }

    /// Adds a node holding `data` and returns its id: the most recently
    /// freed id if any is available for reuse, else the next fresh id.
    /// Always succeeds. The new node starts with no edges.
    pub fn add_node(&mut self, data: N) -> (id: NodeId)
        requires
            old(self).wf(),
        ensures
            final(self).wf(),
            !old(self).node_alive(id),
            final(self).node_alive(id),
            final(self).node_data_spec(id) == data,
            forall|j: NodeId| j != id ==> final(self).node_alive(j) == old(self).node_alive(j),
            forall|j: NodeId|
                j != id && old(self).node_alive(j) ==> final(self).node_data_spec(j) == old(
                    self,
                ).node_data_spec(j),
            forall|a: NodeId, b: NodeId|
                #[trigger] final(self).edge_spec(a, b) == old(self).edge_spec(a, b),
            forall|a: NodeId, b: NodeId|
                old(self).edge_spec(a, b) ==> final(self).edge_data_spec(a, b) == old(
                    self,
                ).edge_data_spec(a, b),
            final(self).live_nodes() =~= old(self).live_nodes().insert(id),
            final(self).node_count_spec() == old(self).node_count_spec() + 1,
            if old(self).free_list().len() > 0 {
                id == old(self).free_list().last() && final(self).free_list() == old(
                    self,
                ).free_list().drop_last() && final(self).slot_count() == old(self).slot_count()
            } else {
                id == old(self).slot_count() && final(self).free_list() == old(self).free_list()
                    && final(self).slot_count() == old(self).slot_count() + 1
            },
    {
        let ghost g0 = *self;
        let slot = Slot { data: Some(data), out: Vec::new(), out_data: Vec::new(), inn: Vec::new() };
        let id: NodeId;
        if self.free.len() > 0 {
            id = self.free.pop().unwrap();
            let s = slot_mut(&mut self.nodes, id);
            *s = slot;
        } else {
            id = self.nodes.len();
            self.nodes.push(slot);
        }
        proof {
            let g1 = *self;
            assert forall|j: int| 0 <= j < g1.nodes@.len() implies #[trigger] g1.slot_wf(j) by {
                if j != id {
                    assert(g0.slot_wf(j));
                    assert(g1.nodes@[j] == g0.nodes@[j]);
                }
            }
            assert(g1.mirrored()) by {
                assert forall|a: NodeId, b: NodeId|
                    a < g1.nodes@.len() && b < g1.nodes@.len() implies (
                g1.nodes@[a as int].out@.contains(b) <==> g1.nodes@[b as int].inn@.contains(
                    a,
                )) by {
                    if a == id {
                        assert(!g1.nodes@[a as int].out@.contains(b));
                        if b != id && g1.nodes@[b as int].inn@.contains(a) {
                            assert(g0.slot_wf(b as int));
                            let k = choose|k: int|
                                0 <= k < g0.nodes@[b as int].inn@.len() && g0.nodes@[
                                    b as int
                                ].inn@[k] == a;
                            assert(g0.node_alive(g0.nodes@[b as int].inn@[k]));
                            assert(false);
                        }
                    } else if b == id {
                        assert(!g1.nodes@[b as int].inn@.contains(a));
                        if g1.nodes@[a as int].out@.contains(b) {
                            assert(g0.slot_wf(a as int));
                            let k = choose|k: int|
                                0 <= k < g0.nodes@[a as int].out@.len() && g0.nodes@[
                                    a as int
                                ].out@[k] == b;
                            assert(g0.node_alive(g0.nodes@[a as int].out@[k]));
                            assert(false);
                        }
                    } else {
                        assert(g0.nodes@[a as int].out@.contains(b) <==> g0.nodes@[
                            b as int
                        ].inn@.contains(a));
                    }
                }
            }
            assert forall|a: NodeId, b: NodeId| #[trigger]
                g1.edge_spec(a, b) == g0.edge_spec(a, b) by {
                if g1.edge_spec(a, b) {
                    assert(a != id && b != id) by {
                        if a == id {
                            assert(g1.nodes@[a as int].out@.len() == 0);
                        }
                        if b == id && a != id {
                            assert(g0.slot_wf(a as int));
                            let k = choose|k: int|
                                0 <= k < g1.nodes@[a as int].out@.len() && g1.nodes@[
                                    a as int
                                ].out@[k] == b;
                            assert(g0.node_alive(g0.nodes@[a as int].out@[k]));
                        }
                    }
                    assert(g0.edge_spec(a, b));
                }
                if g0.edge_spec(a, b) {
                    assert(a != id && b != id);
                    assert(g1.edge_spec(a, b));
                }
            }
            lemma_same_edges_acyclic(g0, g1);
        }
        let nn = self.nodes.len();
        proof {
            let g1 = *self;
            crate::helpers::lemma_id_range_finite(nn);
            assert forall|i: NodeId| g0.live_nodes().contains(i) implies Set::new(
                |i: NodeId| i < nn,
            ).contains(i) by {}
            vstd::set_lib::lemma_len_subset(g0.live_nodes(), Set::new(|i: NodeId| i < nn));
            vstd::set::axiom_set_insert_len(g0.live_nodes(), id);
            assert(g1.live_nodes() =~= g0.live_nodes().insert(id));
        }
        id
    }

    /// Drops every node and edge and resets the id allocator: the next
    /// `add_node` on the cleared graph returns id 0 again.
    pub fn clear(&mut self)
        ensures
            final(self).wf(),
            final(self).slot_count() == 0,
            final(self).free_list() == Seq::<NodeId>::empty(),
            forall|i: NodeId| !final(self).node_alive(i),
            forall|a: NodeId, b: NodeId| !final(self).edge_spec(a, b),
            final(self).live_nodes() =~= Set::<NodeId>::empty(),
            final(self).node_count_spec() == 0,
            final(self).edge_count_spec() == 0,
    {
        self.nodes = Vec::new();
        self.free = Vec::new();
        proof {
            assert(self.free@ =~= Seq::<NodeId>::empty());
            lemma_no_edges_acyclic(*self);
            vstd::set_lib::lemma_len_subset(
                self.live_nodes(),
                Set::<NodeId>::empty(),
            );
        }
    }
}

impl<N, E> Default for Dag<N, E> {
    /// The empty graph store, as `new` builds it.
    fn default() -> (d: Self)
        ensures
            d.wf(),
            d.slot_count() == 0,
            d.free_list() == Seq::<NodeId>::empty(),
            forall|i: NodeId| !d.node_alive(i),
            forall|a: NodeId, b: NodeId| !d.edge_spec(a, b),
    {
        Self::new()
    }
}

/// Yields a mutable reference to the slot at index `i`.
pub(crate) fn slot_mut<N, E>(v: &mut Vec<Slot<N, E>>, i: usize) -> (r: &mut Slot<N, E>)
    requires
        i < old(v)@.len(),
    ensures
        *r == old(v)@[i as int],
        final(v)@ == old(v)@.update(i as int, *final(r)),
{
    &mut v[i]
}

/// Linear membership test on a list of node ids.
pub(crate) fn contains_id(v: &Vec<NodeId>, x: NodeId) -> (r: bool)
    ensures
        r == v@.contains(x),
{
    let mut k: usize = 0;
    while k < v.len()
        invariant
            k <= v@.len(),
            forall|j: int| 0 <= j < k ==> v@[j] != x,
        decreases v@.len() - k,
    {
        if v[k] == x {
            return true;
        }
        k = k + 1;
    }
    false
}

/// A graph without any edge is acyclic.
pub(crate) proof fn lemma_no_edges_acyclic<N, E>(g: Dag<N, E>)
    requires
        forall|a: NodeId, b: NodeId| !g.edge_spec(a, b),
    ensures
        g.acyclic(),
{
}

/// Two graphs with the same edge relation are both acyclic or neither is.
pub(crate) proof fn lemma_same_edges_acyclic<N, E>(g1: Dag<N, E>, g2: Dag<N, E>)
    requires
        g1.acyclic(),
        forall|a: NodeId, b: NodeId| #[trigger] g2.edge_spec(a, b) == g1.edge_spec(a, b),
    ensures
        g2.acyclic(),
{
    crate::reach::lemma_acyclic_subset(g1, g2);
}

} // verus!
