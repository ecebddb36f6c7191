use vstd::prelude::*;

use crate::dag::Dag;
use crate::dag::DagError;
use crate::dag::NodeId;
use crate::dag::slot_mut;
use crate::helpers::lemma_index_of_unique;
use crate::helpers::lemma_push_contains;
use crate::helpers::lemma_remove_no_dup;
use crate::reach::lemma_add_edge_acyclic;
use crate::reach::lemma_acyclic_subset;

verus! {

/// When exactly one slot's outgoing list changes length by `d`, the total
/// edge count over any prefix changes by `d` if the prefix covers that slot.
pub(crate) proof fn lemma_edge_count_update<N, E>(
    g1: Dag<N, E>,
    g2: Dag<N, E>,
    i: int,
    d: int,
    k: int,
)
    requires
        g1.nodes@.len() == g2.nodes@.len(),
        0 <= i < g1.nodes@.len(),
        g2.nodes@[i].out@.len() == g1.nodes@[i].out@.len() + d,
        forall|j: int|
            0 <= j < g1.nodes@.len() && j != i ==> (#[trigger] g2.nodes@[j].out@.len())
                == g1.nodes@[j].out@.len(),
        k <= g1.nodes@.len(),
    ensures
        g2.edge_count_upto(k) == g1.edge_count_upto(k) + (if k > i {
            d
        } else {
            0
        }),
    decreases k,
{
    if k > 0 {
        lemma_edge_count_update(g1, g2, i, d, k - 1);
    }
}

impl<N, E> Dag<N, E> {
    /// Inserts the edge `from -> to` carrying `data`.
    ///
    /// Fails with `NodeNotFound` if either endpoint is dead or out of range,
    /// with `EdgeAlreadyExists` if the edge is already present, and with
    /// `CycleDetected` if `to` can already reach `from` (in particular for
    /// the self-loop `from == to`). On failure the graph is unchanged; on
    /// success exactly this one edge is added.
    pub fn add_edge(&mut self, from: NodeId, to: NodeId, data: E) -> (r: Result<(), DagError>)
        requires
            old(self).wf(),
        ensures
            final(self).wf(),
            r is Ok <==> (old(self).node_alive(from) && old(self).node_alive(to) && !old(
                self,
            ).edge_spec(from, to) && !old(self).reachable(to, from)),
            match r {
                Ok(()) => {
                    &&& final(self).edge_spec(from, to)
                    &&& final(self).edge_data_spec(from, to) == data
                    &&& forall|a: NodeId, b: NodeId|
                        !(a == from && b == to) ==> #[trigger] final(self).edge_spec(a, b) == old(
                            self,
                        ).edge_spec(a, b)
                    &&& forall|a: NodeId, b: NodeId|
                        #[trigger] old(self).edge_spec(a, b) ==> final(self).edge_data_spec(a, b)
                            == old(self).edge_data_spec(a, b)
                    &&& forall|i: NodeId| final(self).node_alive(i) == old(self).node_alive(i)
                    &&& forall|i: NodeId|
                        old(self).node_alive(i) ==> final(self).node_data_spec(i) == old(
                            self,
                        ).node_data_spec(i)
                    &&& final(self).live_nodes() == old(self).live_nodes()
                    &&& final(self).free_list() == old(self).free_list()
                    &&& final(self).slot_count() == old(self).slot_count()
                    &&& final(self).edge_count_spec() == old(self).edge_count_spec() + 1
                },
                Err(e) => {
                    &&& *final(self) == *old(self)
                    &&& (e == DagError::NodeNotFound <==> (!old(self).node_alive(from) || !old(
                        self,
                    ).node_alive(to)))
                    &&& (e == DagError::EdgeAlreadyExists <==> (old(self).node_alive(from) && old(
                        self,
                    ).node_alive(to) && old(self).edge_spec(from, to)))
                    &&& (e == DagError::CycleDetected <==> (old(self).node_alive(from) && old(
                        self,
                    ).node_alive(to) && !old(self).edge_spec(from, to) && old(self).reachable(
                        to,
                        from,
                    )))
                },
            },
    {
        if !self.has_node(from) || !self.has_node(to) {
            return Err(DagError::NodeNotFound);
        }
        if self.has_edge(from, to) {
            return Err(DagError::EdgeAlreadyExists);
        }
        if from == to {
            proof {
                assert(self.reach(to, from, 0));
            }
            return Err(DagError::CycleDetected);
        }
        if self.can_reach(to, from) {
            return Err(DagError::CycleDetected);
        }
        let ghost g0 = *self;
        let s = slot_mut(&mut self.nodes, from);
        s.out.push(to);
        s.out_data.push(data);
        let t = slot_mut(&mut self.nodes, to);
        t.inn.push(from);
        proof {
            let g1 = *self;
            assert(g1.nodes@[from as int].out@ == g0.nodes@[from as int].out@.push(to));
            assert(g1.nodes@[from as int].out_data@ == g0.nodes@[from as int].out_data@.push(
                data,
            ));
            assert(g1.nodes@[from as int].inn@ == g0.nodes@[from as int].inn@);
            assert(g1.nodes@[to as int].inn@ == g0.nodes@[to as int].inn@.push(from));
            assert(g1.nodes@[to as int].out@ == g0.nodes@[to as int].out@);
            assert(forall|j: int|
                0 <= j < g0.nodes@.len() && j != from && j != to ==> g1.nodes@[j] == g0.nodes@[j]);
            assert(forall|i: NodeId| g1.node_alive(i) == g0.node_alive(i));
            // membership in the two pushed lists
            lemma_push_contains(g0.nodes@[from as int].out@, to, to);
            lemma_push_contains(g0.nodes@[to as int].inn@, from, from);
            assert forall|a: NodeId, b: NodeId| #[trigger]
                g1.edge_spec(a, b) <==> (g0.edge_spec(a, b) || (a == from && b == to)) by {
                if a == from {
                    lemma_push_contains(g0.nodes@[from as int].out@, to, b);
                }
            }
            // the new entries were not present before
            assert(!g0.nodes@[from as int].out@.contains(to));
            assert(!g0.nodes@[to as int].inn@.contains(from)) by {
                assert(g0.mirrored());
            }
            assert forall|i: int| 0 <= i < g1.nodes@.len() implies #[trigger] g1.slot_wf(i) by {
                assert(g0.slot_wf(i));
                if i == from {
                    assert(g1.nodes@[i].out@.no_duplicates());
                    assert forall|k: int| 0 <= k < g1.nodes@[i].out@.len() implies g1.node_alive(
                        #[trigger] g1.nodes@[i].out@[k],
                    ) by {
                        if k < g0.nodes@[i].out@.len() {
                            assert(g0.node_alive(g0.nodes@[i].out@[k]));
                        }
                    }
                } else if i == to {
                    assert(g1.nodes@[i].inn@.no_duplicates());
                    assert forall|k: int| 0 <= k < g1.nodes@[i].inn@.len() implies g1.node_alive(
                        #[trigger] g1.nodes@[i].inn@[k],
                    ) by {
                        if k < g0.nodes@[i].inn@.len() {
                            assert(g0.node_alive(g0.nodes@[i].inn@[k]));
                        }
                    }
                }
            }
            assert(g1.mirrored()) by {
                assert forall|a: NodeId, b: NodeId|
                    a < g1.nodes@.len() && b < g1.nodes@.len() implies (
                g1.nodes@[a as int].out@.contains(b) <==> g1.nodes@[b as int].inn@.contains(
                    a,
                )) by {
                    lemma_push_contains(g0.nodes@[from as int].out@, to, b);
                    lemma_push_contains(g0.nodes@[to as int].inn@, from, a);
                    assert(g0.nodes@[a as int].out@.contains(b) <==> g0.nodes@[
                        b as int
                    ].inn@.contains(a));
                }
            }
            lemma_add_edge_acyclic(g0, g1, from, to);
            lemma_edge_count_update(g0, g1, from as int, 1, g0.nodes@.len() as int);
            // stored payloads of the old edges keep their positions
            assert forall|a: NodeId, b: NodeId| #[trigger]
                g0.edge_spec(a, b) implies g1.edge_data_spec(a, b) == g0.edge_data_spec(a, b) by {
                if a == from {
                    let ii = g0.nodes@[a as int].out@.index_of(b);
                    assert(g0.slot_wf(a as int));
                    assert(g1.slot_wf(a as int));
                    assert(0 <= ii < g0.nodes@[a as int].out@.len());
                    lemma_index_of_unique(g1.nodes@[a as int].out@, ii);
                }
            }
            assert(g1.edge_data_spec(from, to) == data) by {
                let oo = g0.nodes@[from as int].out@;
                assert(g1.slot_wf(from as int));
                assert(g1.nodes@[from as int].out@[oo.len() as int] == to);
                lemma_index_of_unique(g1.nodes@[from as int].out@, oo.len() as int);
            }
            assert(g1.live_nodes() =~= g0.live_nodes());
        }
        Ok(())
    }

    /// Removes the edge `from -> to`.
    ///
    /// Fails with `EdgeNotFound` exactly when the edge is absent (including
    /// dead or out-of-range endpoints), leaving the graph unchanged; on
    /// success exactly this one edge is removed.
    pub fn remove_edge(&mut self, from: NodeId, to: NodeId) -> (r: Result<(), DagError>)
        requires
            old(self).wf(),
        ensures
            final(self).wf(),
            r is Ok <==> old(self).edge_spec(from, to),
            match r {
                Ok(()) => {
                    &&& forall|a: NodeId, b: NodeId|
                        #[trigger] final(self).edge_spec(a, b) == (old(self).edge_spec(a, b) && !(a
                            == from && b == to))
                    &&& forall|a: NodeId, b: NodeId|
                        old(self).edge_spec(a, b) && !(a == from && b == to)
                            ==> final(self).edge_data_spec(a, b) == old(self).edge_data_spec(a, b)
                    &&& forall|i: NodeId| final(self).node_alive(i) == old(self).node_alive(i)
                    &&& forall|i: NodeId|
                        old(self).node_alive(i) ==> final(self).node_data_spec(i) == old(
                            self,
                        ).node_data_spec(i)
                    &&& final(self).live_nodes() == old(self).live_nodes()
                    &&& final(self).free_list() == old(self).free_list()
                    &&& final(self).slot_count() == old(self).slot_count()
                    &&& final(self).edge_count_spec() + 1 == old(self).edge_count_spec()
                },
                Err(e) => {
                    &&& *final(self) == *old(self)
                    &&& e == DagError::EdgeNotFound
                },
            },
    {
        if !self.has_edge(from, to) {
            return Err(DagError::EdgeNotFound);
        }
        let ghost g0 = *self;
        proof {
            assert(g0.slot_wf(from as int));
            assert(g0.slot_wf(to as int));
            assert(g0.mirrored());
            assert(g0.nodes@[to as int].inn@.contains(from));
            assert(from != to) by {
                if from == to {
                    assert(g0.reach(to, from, 0));
                    assert(g0.reachable(to, from));
                    assert(g0.edge_spec(from, to));
                    assert(false);
                }
            }
        }
        let s = slot_mut(&mut self.nodes, from);
        let i = find_id(&s.out, to);
        s.out.remove(i);
        s.out_data.remove(i);
        let t = slot_mut(&mut self.nodes, to);
        let j = find_id(&t.inn, from);
        t.inn.remove(j);
        proof {
            let g1 = *self;
            let oo = g0.nodes@[from as int].out@;
            let dd = g0.nodes@[from as int].out_data@;
            let nn = g0.nodes@[to as int].inn@;
            assert(g1.nodes@[from as int].out@ == oo.remove(i as int));
            assert(g1.nodes@[from as int].out_data@ == dd.remove(i as int));
            assert(g1.nodes@[from as int].inn@ == g0.nodes@[from as int].inn@);
            assert(g1.nodes@[to as int].inn@ == nn.remove(j as int));
            assert(g1.nodes@[to as int].out@ == g0.nodes@[to as int].out@);
            assert(forall|p: int|
                0 <= p < g0.nodes@.len() && p != from && p != to ==> g1.nodes@[p] == g0.nodes@[p]);
            assert(forall|p: NodeId| g1.node_alive(p) == g0.node_alive(p));
            lemma_remove_no_dup(oo, i as int);
            lemma_remove_no_dup(nn, j as int);
            assert forall|a: NodeId, b: NodeId| #[trigger]
                g1.edge_spec(a, b) == (g0.edge_spec(a, b) && !(a == from && b == to)) by {
                if a == from {
                    assert(g1.nodes@[a as int].out@.contains(b) == if b == to {
                        false
                    } else {
                        oo.contains(b)
                    });
                }
            }
            assert forall|p: int| 0 <= p < g1.nodes@.len() implies #[trigger] g1.slot_wf(p) by {
                assert(g0.slot_wf(p));
            }
            assert(g1.mirrored()) by {
                assert forall|a: NodeId, b: NodeId|
                    a < g1.nodes@.len() && b < g1.nodes@.len() implies (
                g1.nodes@[a as int].out@.contains(b) <==> g1.nodes@[b as int].inn@.contains(
                    a,
                )) by {
                    assert(g0.nodes@[a as int].out@.contains(b) <==> g0.nodes@[
                        b as int
                    ].inn@.contains(a));
                }
            }
            lemma_acyclic_subset(g0, g1);
            lemma_edge_count_update(g0, g1, from as int, -1, g0.nodes@.len() as int);
            // remaining payloads keep their association
            assert forall|a: NodeId, b: NodeId|
                g0.edge_spec(a, b) && !(a == from && b == to) implies g1.edge_data_spec(a, b)
                == g0.edge_data_spec(a, b) by {
                if a == from {
                    let ii = oo.index_of(b);
                    assert(0 <= ii < oo.len() && oo[ii] == b);
                    assert(ii != i);
                    if ii < i {
                        assert(g1.nodes@[a as int].out@[ii] == b);
                        assert(g1.nodes@[a as int].out_data@[ii] == dd[ii]);
                        lemma_index_of_unique(g1.nodes@[a as int].out@, ii);
                    } else {
                        assert(g1.nodes@[a as int].out@[ii - 1] == b);
                        assert(g1.nodes@[a as int].out_data@[ii - 1] == dd[ii]);
                        lemma_index_of_unique(g1.nodes@[a as int].out@, ii - 1);
                    }
                }
            }
            assert(g1.live_nodes() =~= g0.live_nodes());
        }
        Ok(())
    }
}

/// Position of the one occurrence of `x` in `v`.
pub(crate) fn find_id(v: &Vec<NodeId>, x: NodeId) -> (idx: usize)
    requires
        v@.contains(x),
    ensures
        idx < v@.len(),
        v@[idx as int] == x,
{
    let mut k: usize = 0;
    while k < v.len()
        invariant
            k <= v@.len(),
            v@.contains(x),
            forall|j: int| 0 <= j < k ==> v@[j] != x,
        decreases v@.len() - k,
    {
        if v[k] == x {
            return k;
        }
        k = k + 1;
    }
    proof {
        let j = choose|j: int| 0 <= j < v@.len() && v@[j] == x;
        assert(false);
    }
    0
}

} // verus!
