use vstd::prelude::*;

use crate::dag::Dag;
use crate::dag::DagError;
use crate::dag::NodeId;
use crate::dag::slot_mut;
use crate::edges::find_id;
use crate::helpers::lemma_index_of_unique;
use vstd::pervasive::VecAdditionalExecFns;

verus! {

impl<N, E> Dag<N, E> {
    /// The predecessors of `b`, as recorded in its incoming list, are
    /// exactly the sources of edges into `b`.
    pub(crate) proof fn lemma_inn_is_preds(self, b: NodeId)
        requires
            self.wf(),
            self.node_alive(b),
        ensures
            self.nodes@[b as int].inn@.to_set() =~= self.pred_of(b),
            self.nodes@[b as int].inn@.len() == self.in_degree_spec(b),
            forall|a: NodeId| self.nodes@[b as int].inn@.contains(a) == self.edge_spec(a, b),
    {
        let s = self.nodes@[b as int].inn@;
        assert(self.slot_wf(b as int));
        assert forall|a: NodeId| s.contains(a) == self.edge_spec(a, b) by {
            if s.contains(a) {
                let k = choose|k: int| 0 <= k < s.len() && s[k] == a;
                assert(self.node_alive(s[k]));
                assert(self.nodes@[a as int].out@.contains(b) <==> self.nodes@[
                    b as int
                ].inn@.contains(a));
            }
            if self.edge_spec(a, b) {
                assert(self.nodes@[a as int].out@.contains(b) <==> self.nodes@[
                    b as int
                ].inn@.contains(a));
            }
        }
        assert(s.to_set() =~= self.pred_of(b));
        s.unique_seq_to_set();
    }

    /// The successors of `a`, as recorded in its outgoing list, are exactly
    /// the targets of edges out of `a`.
    pub(crate) proof fn lemma_out_is_succs(self, a: NodeId)
        requires
            self.wf(),
            self.node_alive(a),
        ensures
            self.nodes@[a as int].out@.to_set() =~= self.succ_of(a),
            self.nodes@[a as int].out@.len() == self.out_degree_spec(a),
            forall|b: NodeId| self.nodes@[a as int].out@.contains(b) == self.edge_spec(a, b),
    {
        let s = self.nodes@[a as int].out@;
        assert(self.slot_wf(a as int));
        assert forall|b: NodeId| s.contains(b) == self.edge_spec(a, b) by {
            if s.contains(b) {
                let k = choose|k: int| 0 <= k < s.len() && s[k] == b;
                assert(self.node_alive(s[k]));
            }
        }
        assert(s.to_set() =~= self.succ_of(a));
        s.unique_seq_to_set();
    }

    /// The ids of the direct successors of `id`, each exactly once, in
    /// unspecified order. Fails with `NodeNotFound` if `id` is dead or out
    /// of range.
    pub fn successors(&self, id: NodeId) -> (r: Result<Vec<NodeId>, DagError>)
        requires
            self.wf(),
        ensures
            r is Ok <==> self.node_alive(id),
            match r {
                Ok(v) => {
                    &&& v@.no_duplicates()
                    &&& forall|b: NodeId| v@.contains(b) == self.edge_spec(id, b)
                },
                Err(e) => e == DagError::NodeNotFound,
            },
    {
        if !self.has_node(id) {
            return Err(DagError::NodeNotFound);
        }
        let v = copy_ids(&self.nodes[id].out);
        proof {
            assert(self.slot_wf(id as int));
            self.lemma_out_is_succs(id);
        }
        Ok(v)
    }

    /// The ids of the direct predecessors of `id`, each exactly once, in
    /// unspecified order. Fails with `NodeNotFound` if `id` is dead or out
    /// of range.
    pub fn predecessors(&self, id: NodeId) -> (r: Result<Vec<NodeId>, DagError>)
        requires
            self.wf(),
        ensures
            r is Ok <==> self.node_alive(id),
            match r {
                Ok(v) => {
                    &&& v@.no_duplicates()
                    &&& forall|a: NodeId| v@.contains(a) == self.edge_spec(a, id)
                },
                Err(e) => e == DagError::NodeNotFound,
            },
    {
        if !self.has_node(id) {
            return Err(DagError::NodeNotFound);
        }
        let v = copy_ids(&self.nodes[id].inn);
        proof {
            assert(self.slot_wf(id as int));
            self.lemma_inn_is_preds(id);
        }
        Ok(v)
    }

    /// Number of edges into `id`; fails with `NodeNotFound` if `id` is dead
    /// or out of range.
    pub fn indegree(&self, id: NodeId) -> (r: Result<usize, DagError>)
        requires
            self.wf(),
        ensures
            r is Ok <==> self.node_alive(id),
            match r {
                Ok(d) => d == self.in_degree_spec(id),
                Err(e) => e == DagError::NodeNotFound,
            },
    {
        if !self.has_node(id) {
            return Err(DagError::NodeNotFound);
        }
        proof {
            self.lemma_inn_is_preds(id);
        }
        Ok(self.nodes[id].inn.len())
    }

    /// Number of edges out of `id`; fails with `NodeNotFound` if `id` is
    /// dead or out of range.
    pub fn outdegree(&self, id: NodeId) -> (r: Result<usize, DagError>)
        requires
            self.wf(),
        ensures
            r is Ok <==> self.node_alive(id),
            match r {
                Ok(d) => d == self.out_degree_spec(id),
                Err(e) => e == DagError::NodeNotFound,
            },
    {
        if !self.has_node(id) {
            return Err(DagError::NodeNotFound);
        }
        proof {
            self.lemma_out_is_succs(id);
        }
        Ok(self.nodes[id].out.len())
    }

    /// Every currently existing node id, each exactly once, in ascending
    /// order of id.
    pub fn all_nodes(&self) -> (v: Vec<NodeId>)
        ensures
            v@.no_duplicates(),
            forall|i: NodeId| v@.contains(i) == self.node_alive(i),
    {
        let n = self.nodes.len();
        let mut v: Vec<NodeId> = Vec::new();
        let mut k: usize = 0;
        while k < n
            invariant
                k <= n,
                n == self.nodes@.len(),
                forall|j: int| 0 <= j < v@.len() ==> (#[trigger] v@[j]) < k,
                v@.no_duplicates(),
                forall|i: NodeId| i < k ==> v@.contains(i) == self.node_alive(i),
                forall|i: NodeId| i >= k ==> !v@.contains(i),
            decreases n - k,
        {
            let ghost v0 = v@;
            if self.has_node(k) {
                v.push(k);
                proof {
                    crate::helpers::lemma_push_contains_all(v0, k);
                }
            }
            proof {
                assert forall|i: NodeId| i < k + 1 implies v@.contains(i) == self.node_alive(
                    i,
                ) by {
                    if i < k {
                        assert(v0.contains(i) == self.node_alive(i));
                        assert(v@.contains(i) == self.node_alive(i));
                    } else {
                        assert(i == k);
                        assert(v@.contains(i) == self.node_alive(i));
                    }
                }
            }
            k = k + 1;
        }
        v
    }

    /// Count of currently existing nodes (not the high-water mark of
    /// issued ids).
    pub fn node_count(&self) -> (r: usize)
        ensures
            r == self.node_count_spec(),
    {
        let v = self.all_nodes();
        proof {
            v@.unique_seq_to_set();
            assert(v@.to_set() =~= self.live_nodes());
        }
        v.len()
    }

    /// Count of currently existing edges.
    pub fn edge_count(&self) -> (r: usize)
        requires
            self.wf(),
            self.edge_count_spec() <= usize::MAX,
        ensures
            r == self.edge_count_spec(),
    {
        let n = self.nodes.len();
        let mut acc: usize = 0;
        let mut k: usize = 0;
        while k < n
            invariant
                k <= n,
                n == self.nodes@.len(),
                self.edge_count_spec() <= usize::MAX,
                acc == self.edge_count_upto(k as int),
            decreases n - k,
        {
            proof {
                lemma_edge_count_upto_mono(*self, k as int + 1, n as int);
            }
            acc = acc + self.nodes[k].out.len();
            k = k + 1;
        }
        acc
    }

    /// Every existing node with no incoming edge, each exactly once.
    pub fn source_nodes(&self) -> (v: Vec<NodeId>)
        requires
            self.wf(),
        ensures
            v@.no_duplicates(),
            forall|i: NodeId| v@.contains(i) == self.is_source(i),
    {
        let n = self.nodes.len();
        let mut v: Vec<NodeId> = Vec::new();
        let mut k: usize = 0;
        while k < n
            invariant
                self.wf(),
                k <= n,
                n == self.nodes@.len(),
                forall|j: int| 0 <= j < v@.len() ==> (#[trigger] v@[j]) < k,
                v@.no_duplicates(),
                forall|i: NodeId| i < k ==> v@.contains(i) == self.is_source(i),
                forall|i: NodeId| i >= k ==> !v@.contains(i),
            decreases n - k,
        {
            let ghost v0 = v@;
            if self.has_node(k) && self.nodes[k].inn.len() == 0 {
                v.push(k);
                proof {
                    crate::helpers::lemma_push_contains_all(v0, k);
                    self.lemma_inn_is_preds(k);
                    assert(self.is_source(k)) by {
                        assert forall|a: NodeId| !self.edge_spec(a, k) by {
                            assert(self.nodes@[k as int].inn@.contains(a) == self.edge_spec(a, k));
                        }
                    }
                }
            } else {
                proof {
                    if self.node_alive(k) {
                        self.lemma_inn_is_preds(k);
                        let w = self.nodes@[k as int].inn@[0];
                        assert(self.nodes@[k as int].inn@.contains(w));
                        assert(self.edge_spec(w, k));
                        assert(!self.is_source(k));
                    }
                }
            }
            proof {
                assert forall|i: NodeId| i < k + 1 implies v@.contains(i) == self.is_source(
                    i,
                ) by {
                    if i < k {
                        assert(v0.contains(i) == self.is_source(i));
                        assert(v@.contains(i) == self.is_source(i));
                    } else {
                        assert(i == k);
                        assert(!v0.contains(i));
                        assert(v@.contains(i) == self.is_source(i));
                    }
                }
            }
            k = k + 1;
        }
        v
    }

    /// Every existing node with no outgoing edge, each exactly once.
    pub fn sink_nodes(&self) -> (v: Vec<NodeId>)
        requires
            self.wf(),
        ensures
            v@.no_duplicates(),
            forall|i: NodeId| v@.contains(i) == self.is_sink(i),
    {
        let n = self.nodes.len();
        let mut v: Vec<NodeId> = Vec::new();
        let mut k: usize = 0;
        while k < n
            invariant
                self.wf(),
                k <= n,
                n == self.nodes@.len(),
                forall|j: int| 0 <= j < v@.len() ==> (#[trigger] v@[j]) < k,
                v@.no_duplicates(),
                forall|i: NodeId| i < k ==> v@.contains(i) == self.is_sink(i),
                forall|i: NodeId| i >= k ==> !v@.contains(i),
            decreases n - k,
        {
            let ghost v0 = v@;
            if self.has_node(k) && self.nodes[k].out.len() == 0 {
                v.push(k);
                proof {
                    crate::helpers::lemma_push_contains_all(v0, k);
                    self.lemma_out_is_succs(k);
                    assert(self.is_sink(k)) by {
                        assert forall|b: NodeId| !self.edge_spec(k, b) by {
                            assert(self.nodes@[k as int].out@.contains(b) == self.edge_spec(k, b));
                        }
                    }
                }
            } else {
                proof {
                    if self.node_alive(k) {
                        self.lemma_out_is_succs(k);
                        let w = self.nodes@[k as int].out@[0];
                        assert(self.nodes@[k as int].out@.contains(w));
                        assert(self.edge_spec(k, w));
                        assert(!self.is_sink(k));
                    }
                }
            }
            proof {
                assert forall|i: NodeId| i < k + 1 implies v@.contains(i) == self.is_sink(i) by {
                    if i < k {
                        assert(v0.contains(i) == self.is_sink(i));
                        assert(v@.contains(i) == self.is_sink(i));
                    } else {
                        assert(i == k);
                        assert(!v0.contains(i));
                        assert(v@.contains(i) == self.is_sink(i));
                    }
                }
            }
            k = k + 1;
        }
        v
    }

    /// A reference to the payload of node `id`, or `NodeNotFound` if `id`
    /// is dead or out of range.
    pub fn node_data(&self, id: NodeId) -> (r: Result<&N, DagError>)
        ensures
            r is Ok <==> self.node_alive(id),
            match r {
                Ok(d) => *d == self.node_data_spec(id),
                Err(e) => e == DagError::NodeNotFound,
            },
    {
        if id < self.nodes.len() {
            match &self.nodes[id].data {
                Some(d) => Ok(d),
                None => Err(DagError::NodeNotFound),
            }
        } else {
            Err(DagError::NodeNotFound)
        }
    }

    /// Replaces the payload of node `id`; the graph's topology is
    /// untouched. Fails with `NodeNotFound` if `id` is dead or out of
    /// range, leaving the graph unchanged.
    pub fn set_node_data(&mut self, id: NodeId, data: N) -> (r: Result<(), DagError>)
        requires
            old(self).wf(),
        ensures
            final(self).wf(),
            r is Ok <==> old(self).node_alive(id),
            match r {
                Ok(()) => {
                    &&& final(self).node_data_spec(id) == data
                    &&& forall|j: NodeId| final(self).node_alive(j) == old(self).node_alive(j)
                    &&& forall|j: NodeId|
                        j != id && old(self).node_alive(j) ==> final(self).node_data_spec(j) == old(
                            self,
                        ).node_data_spec(j)
                    &&& forall|a: NodeId, b: NodeId|
                        #[trigger] final(self).edge_spec(a, b) == old(self).edge_spec(a, b)
                    &&& forall|a: NodeId, b: NodeId|
                        old(self).edge_spec(a, b) ==> final(self).edge_data_spec(a, b) == old(
                            self,
                        ).edge_data_spec(a, b)
                    &&& final(self).live_nodes() == old(self).live_nodes()
                    &&& final(self).free_list() == old(self).free_list()
                    &&& final(self).slot_count() == old(self).slot_count()
                    &&& final(self).edge_count_spec() == old(self).edge_count_spec()
                },
                Err(e) => {
                    &&& *final(self) == *old(self)
                    &&& e == DagError::NodeNotFound
                },
            },
    {
        if !self.has_node(id) {
            return Err(DagError::NodeNotFound);
        }
        let ghost g0 = *self;
        let s = slot_mut(&mut self.nodes, id);
        s.data = Some(data);
        proof {
            let g1 = *self;
            assert(forall|j: int|
                0 <= j < g0.nodes@.len() && j != id ==> g1.nodes@[j] == g0.nodes@[j]);
            assert(forall|j: NodeId| g1.node_alive(j) == g0.node_alive(j));
            assert(forall|a: NodeId, b: NodeId| #[trigger]
                g1.edge_spec(a, b) == g0.edge_spec(a, b));
            assert forall|j: int| 0 <= j < g1.nodes@.len() implies #[trigger] g1.slot_wf(j) by {
                assert(g0.slot_wf(j));
            }
            crate::dag::lemma_same_edges_acyclic(g0, g1);
            crate::edges::lemma_edge_count_update(g0, g1, id as int, 0, g0.nodes@.len() as int);
            assert(g1.live_nodes() =~= g0.live_nodes());
        }
        Ok(())
    }

    /// A reference to the payload of the edge `from -> to`, or
    /// `EdgeNotFound` if the edge is absent.
    pub fn edge_data(&self, from: NodeId, to: NodeId) -> (r: Result<&E, DagError>)
        requires
            self.wf(),
        ensures
            r is Ok <==> self.edge_spec(from, to),
            match r {
                Ok(d) => *d == self.edge_data_spec(from, to),
                Err(e) => e == DagError::EdgeNotFound,
            },
    {
        if !self.has_edge(from, to) {
            return Err(DagError::EdgeNotFound);
        }
        let i = find_id(&self.nodes[from].out, to);
        proof {
            assert(self.slot_wf(from as int));
            lemma_index_of_unique(self.nodes@[from as int].out@, i as int);
        }
        Ok(&self.nodes[from].out_data[i])
    }

    /// Replaces the payload of the edge `from -> to`; the graph's topology
    /// is untouched. Fails with `EdgeNotFound` if the edge is absent,
    /// leaving the graph unchanged.
    pub fn set_edge_data(&mut self, from: NodeId, to: NodeId, data: E) -> (r: Result<
        (),
        DagError,
    >)
        requires
            old(self).wf(),
        ensures
            final(self).wf(),
            r is Ok <==> old(self).edge_spec(from, to),
            match r {
                Ok(()) => {
                    &&& final(self).edge_data_spec(from, to) == data
                    &&& forall|a: NodeId, b: NodeId|
                        old(self).edge_spec(a, b) && !(a == from && b == to)
                            ==> final(self).edge_data_spec(a, b) == old(self).edge_data_spec(a, b)
                    &&& forall|a: NodeId, b: NodeId|
                        #[trigger] final(self).edge_spec(a, b) == old(self).edge_spec(a, b)
                    &&& forall|j: NodeId| final(self).node_alive(j) == old(self).node_alive(j)
                    &&& forall|j: NodeId|
                        old(self).node_alive(j) ==> final(self).node_data_spec(j) == old(
                            self,
                        ).node_data_spec(j)
                    &&& final(self).live_nodes() == old(self).live_nodes()
                    &&& final(self).free_list() == old(self).free_list()
                    &&& final(self).slot_count() == old(self).slot_count()
                    &&& final(self).edge_count_spec() == old(self).edge_count_spec()
                },
                Err(e) => {
                    &&& *final(self) == *old(self)
                    &&& e == DagError::EdgeNotFound
                },
            },
    {
        if !self.has_edge(from, to) {
            return Err(DagError::EdgeNotFound);
        }
        let ghost g0 = *self;
        proof {
            assert(g0.slot_wf(from as int));
        }
        let s = slot_mut(&mut self.nodes, from);
        let i = find_id(&s.out, to);
        s.out_data.set(i, data);
        proof {
            let g1 = *self;
            lemma_index_of_unique(g0.nodes@[from as int].out@, i as int);
            assert(forall|j: int|
                0 <= j < g0.nodes@.len() && j != from ==> g1.nodes@[j] == g0.nodes@[j]);
            assert(g1.nodes@[from as int].out@ == g0.nodes@[from as int].out@);
            assert(g1.nodes@[from as int].inn@ == g0.nodes@[from as int].inn@);
            assert(g1.nodes@[from as int].data == g0.nodes@[from as int].data);
            assert(g1.nodes@[from as int].out_data@ == g0.nodes@[from as int].out_data@.update(
                i as int,
                data,
            ));
            assert(forall|j: NodeId| g1.node_alive(j) == g0.node_alive(j));
            assert(forall|a: NodeId, b: NodeId| #[trigger]
                g1.edge_spec(a, b) == g0.edge_spec(a, b));
            assert forall|j: int| 0 <= j < g1.nodes@.len() implies #[trigger] g1.slot_wf(j) by {
                assert(g0.slot_wf(j));
            }
            crate::dag::lemma_same_edges_acyclic(g0, g1);
            crate::edges::lemma_edge_count_update(g0, g1, from as int, 0, g0.nodes@.len() as int);
            assert(g1.live_nodes() =~= g0.live_nodes());
            assert(g1.edge_data_spec(from, to) == data);
            assert forall|a: NodeId, b: NodeId|
                g0.edge_spec(a, b) && !(a == from && b == to) implies g1.edge_data_spec(a, b)
                == g0.edge_data_spec(a, b) by {
                if a == from {
                    let ii = g0.nodes@[a as int].out@.index_of(b);
                    assert(0 <= ii < g0.nodes@[a as int].out@.len());
                    assert(ii != i);
                }
            }
        }
        Ok(())
    }

    /// One full enumeration of the existing node ids; each call starts a
    /// fresh traversal.
    pub fn iter_nodes(&self) -> (v: Vec<NodeId>)
        ensures
            v@.no_duplicates(),
            forall|i: NodeId| v@.contains(i) == self.node_alive(i),
    {
        self.all_nodes()
    }

    /// One full enumeration of the direct successors of `id`; each call
    /// starts a fresh traversal.
    pub fn iter_successor(&self, id: NodeId) -> (r: Result<Vec<NodeId>, DagError>)
        requires
            self.wf(),
        ensures
            r is Ok <==> self.node_alive(id),
            match r {
                Ok(v) => {
                    &&& v@.no_duplicates()
                    &&& forall|b: NodeId| v@.contains(b) == self.edge_spec(id, b)
                },
                Err(e) => e == DagError::NodeNotFound,
            },
    {
        self.successors(id)
    }

    /// One full enumeration of the direct predecessors of `id`; each call
    /// starts a fresh traversal.
    pub fn iter_predecessor(&self, id: NodeId) -> (r: Result<Vec<NodeId>, DagError>)
        requires
            self.wf(),
        ensures
            r is Ok <==> self.node_alive(id),
            match r {
                Ok(v) => {
                    &&& v@.no_duplicates()
                    &&& forall|a: NodeId| v@.contains(a) == self.edge_spec(a, id)
                },
                Err(e) => e == DagError::NodeNotFound,
            },
    {
        self.predecessors(id)
    }

    /// One full enumeration of the existing edges as `(from, to)` pairs;
    /// each call starts a fresh traversal.
    pub fn iter_edges(&self) -> (v: Vec<(NodeId, NodeId)>)
        requires
            self.wf(),
        ensures
            v@.no_duplicates(),
            forall|a: NodeId, b: NodeId| v@.contains((a, b)) == self.edge_spec(a, b),
    {
        let n = self.nodes.len();
        let mut v: Vec<(NodeId, NodeId)> = Vec::new();
        let mut k: usize = 0;
        while k < n
            invariant
                self.wf(),
                k <= n,
                n == self.nodes@.len(),
                v@.no_duplicates(),
                forall|a: NodeId, b: NodeId|
                    (#[trigger] v@.contains((a, b))) == (self.edge_spec(a, b) && a < k),
            decreases n - k,
        {
            let deg = self.nodes[k].out.len();
            let mut j: usize = 0;
            while j < deg
                invariant
                    self.wf(),
                    k < n,
                    n == self.nodes@.len(),
                    deg == self.nodes@[k as int].out@.len(),
                    j <= deg,
                    v@.no_duplicates(),
                    forall|a: NodeId, b: NodeId|
                        (#[trigger] v@.contains((a, b))) == (self.edge_spec(a, b) && (a < k || (a
                            == k && self.nodes@[k as int].out@.subrange(0, j as int).contains(
                            b,
                        )))),
                decreases deg - j,
            {
                let b = self.nodes[k].out[j];
                let ghost v0 = v@;
                proof {
                    assert(self.slot_wf(k as int));
                    assert(self.node_alive(self.nodes@[k as int].out@[j as int]));
                    assert(self.edge_spec(k, b));
                    assert(!self.nodes@[k as int].out@.subrange(0, j as int).contains(b)) by {
                        if self.nodes@[k as int].out@.subrange(0, j as int).contains(b) {
                            let jj = choose|jj: int|
                                0 <= jj < j && self.nodes@[k as int].out@.subrange(0, j as int)[jj]
                                    == b;
                            assert(self.nodes@[k as int].out@[jj] == b);
                        }
                    }
                    assert(!v0.contains((k, b)));
                }
                v.push((k, b));
                proof {
                    let ss = self.nodes@[k as int].out@;
                    crate::helpers::lemma_push_no_dup(v0, (k, b));
                    assert(ss.subrange(0, j as int + 1) =~= ss.subrange(0, j as int).push(b));
                    assert forall|a: NodeId, bb: NodeId| #[trigger]
                        v@.contains((a, bb)) == (self.edge_spec(a, bb) && (a < k || (a == k
                            && ss.subrange(0, j as int + 1).contains(bb)))) by {
                        assert(v0.contains((a, bb)) == (self.edge_spec(a, bb) && (a < k || (a == k
                            && ss.subrange(0, j as int).contains(bb)))));
                        crate::helpers::lemma_push_contains(v0, (k, b), (a, bb));
                        crate::helpers::lemma_push_contains(ss.subrange(0, j as int), b, bb);
                    }
                }
                j = j + 1;
            }
            proof {
                assert(self.nodes@[k as int].out@.subrange(0, deg as int) =~= self.nodes@[
                    k as int
                ].out@);
                assert forall|a: NodeId, b: NodeId|
                    (#[trigger] v@.contains((a, b))) == (self.edge_spec(a, b) && a < k + 1) by {
                    assert(v@.contains((a, b)) == (self.edge_spec(a, b) && (a < k || (a == k
                        && self.nodes@[k as int].out@.subrange(0, deg as int).contains(b)))));
                    if self.edge_spec(a, b) && a == k {
                        self.lemma_out_is_succs(k);
                    }
                }
            }
            k = k + 1;
        }
        v
    }
}

/// Monotonicity of the edge count in the prefix length.
pub(crate) proof fn lemma_edge_count_upto_mono<N, E>(g: Dag<N, E>, k1: int, k2: int)
    requires
        0 <= k1 <= k2,
    ensures
        g.edge_count_upto(k1) <= g.edge_count_upto(k2),
    decreases k2,
{
    if k1 < k2 {
        lemma_edge_count_upto_mono(g, k1, k2 - 1);
    }
}

/// Copies a list of node ids.
pub(crate) fn copy_ids(v: &Vec<NodeId>) -> (r: Vec<NodeId>)
    ensures
        r@ == v@,
{
    let mut r: Vec<NodeId> = Vec::new();
    let mut k: usize = 0;
    while k < v.len()
        invariant
            k <= v@.len(),
            r@ == v@.subrange(0, k as int),
        decreases v@.len() - k,
    {
        r.push(v[k]);
        proof {
            assert(r@ =~= v@.subrange(0, k as int + 1));
        }
        k = k + 1;
    }
    proof {
        assert(r@ =~= v@);
    }
    r
}

} // verus!
