use vstd::prelude::*;

use crate::dag::Dag;
use crate::dag::DagError;
use crate::dag::NodeId;
use crate::dag::contains_id;
use crate::dag::slot_mut;
use crate::edges::find_id;
use crate::helpers::lemma_index_of_unique;
use crate::helpers::lemma_remove_no_dup;
use crate::reach::lemma_acyclic_subset;

verus! {

/// `s` with its occurrence of `x` (if any) taken out.
pub(crate) open spec fn purge(s: Seq<NodeId>, x: NodeId) -> Seq<NodeId> {
    if s.contains(x) {
        s.remove(s.index_of(x))
    } else {
        s
    }
}

/// A payload list with the entry aligned to `x`'s occurrence in `s` (if
/// any) taken out.
pub(crate) open spec fn purge_data<E>(s: Seq<NodeId>, d: Seq<E>, x: NodeId) -> Seq<E> {
    if s.contains(x) {
        d.remove(s.index_of(x))
    } else {
        d
    }
}

/// What `purge` keeps: everything but `x`, in order, without duplicates.
pub(crate) proof fn lemma_purge(s: Seq<NodeId>, x: NodeId)
    requires
        s.no_duplicates(),
    ensures
        purge(s, x).no_duplicates(),
        !purge(s, x).contains(x),
        forall|y: NodeId| y != x ==> purge(s, x).contains(y) == s.contains(y),
        purge(s, x).len() == if s.contains(x) {
            s.len() - 1
        } else {
            s.len() as int
        },
{
    if s.contains(x) {
        let i = s.index_of(x);
        lemma_remove_no_dup(s, i);
    }
}

/// Purging keeps every remaining id aligned with its payload.
pub(crate) proof fn lemma_purge_data_align<E>(s: Seq<NodeId>, d: Seq<E>, x: NodeId, y: NodeId)
    requires
        s.no_duplicates(),
        d.len() == s.len(),
        s.contains(y),
        y != x,
    ensures
        purge(s, x).contains(y),
        purge_data(s, d, x).len() == purge(s, x).len(),
        purge_data(s, d, x)[purge(s, x).index_of(y)] == d[s.index_of(y)],
{
    lemma_purge(s, x);
    let j = s.index_of(y);
    assert(0 <= j < s.len() && s[j] == y);
    if s.contains(x) {
        let i = s.index_of(x);
        assert(0 <= i < s.len() && s[i] == x);
        assert(i != j);
        let p = purge(s, x);
        if j < i {
            assert(p[j] == y);
            lemma_index_of_unique(p, j);
            assert(purge_data(s, d, x)[j] == d[j]);
        } else {
            assert(p[j - 1] == y);
            lemma_index_of_unique(p, j - 1);
            assert(purge_data(s, d, x)[j - 1] == d[j]);
        }
    } else {
        lemma_index_of_unique(s, j);
    }
}

/// Number of slots among `0 .. k` whose outgoing list mentions `id`.
pub(crate) open spec fn count_pred_upto<N, E>(g: Dag<N, E>, id: NodeId, k: int) -> nat
    decreases k,
{
    if k <= 0 {
        0
    } else {
        count_pred_upto(g, id, k - 1) + (if g.nodes@[k - 1].out@.contains(id) {
            1nat
        } else {
            0nat
        })
    }
}

/// Dropping `id` from every outgoing list, and emptying `id`'s own, lowers
/// the total edge count by the number of lists that mentioned `id` plus the
/// length of `id`'s own list.
pub(crate) proof fn lemma_edge_count_remove<N, E>(g1: Dag<N, E>, g2: Dag<N, E>, id: NodeId, k: int)
    requires
        g1.nodes@.len() == g2.nodes@.len(),
        id < g1.nodes@.len(),
        !g1.nodes@[id as int].out@.contains(id),
        g2.nodes@[id as int].out@.len() == 0,
        forall|p: int|
            0 <= p < g1.nodes@.len() && p != id ==> (#[trigger] g2.nodes@[p].out@.len())
                == g1.nodes@[p].out@.len() - (if g1.nodes@[p].out@.contains(id) {
                1int
            } else {
                0int
            }),
        k <= g1.nodes@.len(),
    ensures
        g2.edge_count_upto(k) + count_pred_upto(g1, id, k) + (if k > id {
            g1.nodes@[id as int].out@.len() as int
        } else {
            0int
        }) == g1.edge_count_upto(k),
    decreases k,
{
    if k > 0 {
        lemma_edge_count_remove(g1, g2, id, k - 1);
    }
}

/// The slots whose outgoing lists mention an existing `id` are exactly its
/// predecessors, so their count is its indegree.
pub(crate) proof fn lemma_count_pred_card<N, E>(g: Dag<N, E>, id: NodeId, n: usize, k: int)
    requires
        g.wf(),
        g.node_alive(id),
        n == g.nodes@.len(),
        0 <= k <= n,
    ensures
        Set::new(|a: NodeId| (a as int) < k && g.edge_spec(a, id)).finite(),
        count_pred_upto(g, id, k) == Set::new(
            |a: NodeId| (a as int) < k && g.edge_spec(a, id),
        ).len(),
    decreases k,
{
    let sk = Set::new(|a: NodeId| (a as int) < k && g.edge_spec(a, id));
    if k == 0 {
        assert(sk =~= Set::<NodeId>::empty());
    } else {
        lemma_count_pred_card(g, id, n, k - 1);
        let sk1 = Set::new(|a: NodeId| (a as int) < k - 1 && g.edge_spec(a, id));
        let a = (k - 1) as NodeId;
        if g.nodes@[k - 1].out@.contains(id) {
            assert(g.node_alive(a)) by {
                assert(g.slot_wf(k - 1));
            }
            assert(g.edge_spec(a, id));
            assert(sk =~= sk1.insert(a));
            assert(!sk1.contains(a));
            vstd::set::axiom_set_insert_len(sk1, a);
        } else {
            assert(!g.edge_spec(a, id));
            assert(sk =~= sk1);
        }
    }
}

impl<N, E> Dag<N, E> {
    /// Removes the node `id` together with every edge incident to it, in
    /// either direction, and returns `id` to the free list for reuse by the
    /// next `add_node`.
    ///
    /// Fails with `NodeNotFound` exactly when `id` is dead or out of range,
    /// leaving the graph unchanged.
    pub fn remove_node(&mut self, id: NodeId) -> (r: Result<(), DagError>)
        requires
            old(self).wf(),
        ensures
            final(self).wf(),
            r is Ok <==> old(self).node_alive(id),
            match r {
                Ok(()) => {
                    &&& !final(self).node_alive(id)
                    &&& forall|j: NodeId|
                        j != id ==> final(self).node_alive(j) == old(self).node_alive(j)
                    &&& forall|j: NodeId|
                        j != id && old(self).node_alive(j) ==> final(self).node_data_spec(j) == old(
                            self,
                        ).node_data_spec(j)
                    &&& forall|a: NodeId, b: NodeId|
                        #[trigger] final(self).edge_spec(a, b) == (old(self).edge_spec(a, b) && a
                            != id && b != id)
                    &&& forall|a: NodeId, b: NodeId|
                        old(self).edge_spec(a, b) && a != id && b != id
                            ==> final(self).edge_data_spec(a, b) == old(self).edge_data_spec(a, b)
                    &&& final(self).live_nodes() =~= old(self).live_nodes().remove(id)
                    &&& final(self).node_count_spec() + 1 == old(self).node_count_spec()
                    &&& final(self).free_list() == old(self).free_list().push(id)
                    &&& final(self).slot_count() == old(self).slot_count()
                    &&& final(self).edge_count_spec() + old(self).in_degree_spec(id) + old(
                        self,
                    ).out_degree_spec(id) == old(self).edge_count_spec()
                },
                Err(e) => {
                    &&& *final(self) == *old(self)
                    &&& e == DagError::NodeNotFound
                },
            },
    {
        if !self.has_node(id) {
            return Err(DagError::NodeNotFound);
        }
        let ghost g0 = *self;
        let n = self.nodes.len();
        let mut p: usize = 0;
        while p < n
            invariant
                g0.wf(),
                id < n,
                p <= n,
                n == self.nodes@.len(),
                n == g0.nodes@.len(),
                self.free@ == g0.free@,
                forall|q: int|
                    0 <= q < n && (q >= p || q == id) ==> #[trigger] self.nodes@[q] == g0.nodes@[q],
                forall|q: int|
                    0 <= q < p && q != id ==> (#[trigger] self.nodes@[q]).out@ == purge(
                        g0.nodes@[q].out@,
                        id,
                    ) && self.nodes@[q].out_data@ == purge_data(
                        g0.nodes@[q].out@,
                        g0.nodes@[q].out_data@,
                        id,
                    ) && self.nodes@[q].inn@ == purge(g0.nodes@[q].inn@, id) && self.nodes@[q].data
                        == g0.nodes@[q].data,
            decreases n - p,
        {
            if p != id {
                proof {
                    assert(g0.slot_wf(p as int));
                }
                let s = slot_mut(&mut self.nodes, p);
                let ghost s0 = *s;
                if contains_id(&s.out, id) {
                    let i = find_id(&s.out, id);
                    proof {
                        lemma_index_of_unique(s0.out@, i as int);
                    }
                    s.out.remove(i);
                    s.out_data.remove(i);
                }
                if contains_id(&s.inn, id) {
                    let i = find_id(&s.inn, id);
                    proof {
                        lemma_index_of_unique(s0.inn@, i as int);
                    }
                    s.inn.remove(i);
                }
            }
            p = p + 1;
        }
        let s = slot_mut(&mut self.nodes, id);
        s.data = None;
        s.out = Vec::new();
        s.out_data = Vec::new();
        s.inn = Vec::new();
        self.free.push(id);
        proof {
            let g1 = *self;
            assert(g1.nodes@[id as int].data is None);
            assert(g1.nodes@[id as int].out@ =~= Seq::<NodeId>::empty());
            assert(g1.nodes@[id as int].out_data@ =~= Seq::<E>::empty());
            assert(g1.nodes@[id as int].inn@ =~= Seq::<NodeId>::empty());
            assert(forall|j: NodeId| j != id ==> g1.node_alive(j) == g0.node_alive(j));
            assert(!g1.node_alive(id));
            // purge facts for every other slot
            assert forall|q: int| 0 <= q < n && q != id implies (#[trigger]
            g1.nodes@[q]).out@ == purge(g0.nodes@[q].out@, id) && g1.nodes@[q].out_data@
                == purge_data(g0.nodes@[q].out@, g0.nodes@[q].out_data@, id) && g1.nodes@[q].inn@
                == purge(g0.nodes@[q].inn@, id) && g1.nodes@[q].data == g0.nodes@[q].data by {}
            assert forall|q: int| 0 <= q < n && q != id implies (#[trigger]
            g1.nodes@[q]).out@.no_duplicates() && !g1.nodes@[q].out@.contains(id) && (forall|
                y: NodeId,
            |
                y != id ==> g1.nodes@[q].out@.contains(y) == g0.nodes@[q].out@.contains(y))
                && g1.nodes@[q].inn@.no_duplicates() && !g1.nodes@[q].inn@.contains(id) && (forall|
                y: NodeId,
            |
                y != id ==> g1.nodes@[q].inn@.contains(y) == g0.nodes@[q].inn@.contains(y))
                && g1.nodes@[q].out_data@.len() == g1.nodes@[q].out@.len() by {
                assert(g0.slot_wf(q));
                lemma_purge(g0.nodes@[q].out@, id);
                lemma_purge(g0.nodes@[q].inn@, id);
                if g0.nodes@[q].out@.contains(id) {
                    assert(g1.nodes@[q].out_data@.len() == g1.nodes@[q].out@.len());
                } else {
                    assert(g1.nodes@[q].out_data@.len() == g1.nodes@[q].out@.len());
                }
            }
            assert forall|a: NodeId, b: NodeId| #[trigger]
                g1.edge_spec(a, b) == (g0.edge_spec(a, b) && a != id && b != id) by {}
            assert forall|q: int| 0 <= q < n implies #[trigger] g1.slot_wf(q) by {
                assert(g0.slot_wf(q));
                if q != id {
                    assert forall|k: int| 0 <= k < g1.nodes@[q].out@.len() implies g1.node_alive(
                        #[trigger] g1.nodes@[q].out@[k],
                    ) by {
                        let y = g1.nodes@[q].out@[k];
                        assert(g1.nodes@[q].out@.contains(y));
                        assert(y != id);
                        assert(g0.nodes@[q].out@.contains(y));
                        let kk = choose|kk: int|
                            0 <= kk < g0.nodes@[q].out@.len() && g0.nodes@[q].out@[kk] == y;
                        assert(g0.node_alive(g0.nodes@[q].out@[kk]));
                    }
                    assert forall|k: int| 0 <= k < g1.nodes@[q].inn@.len() implies g1.node_alive(
                        #[trigger] g1.nodes@[q].inn@[k],
                    ) by {
                        let y = g1.nodes@[q].inn@[k];
                        assert(g1.nodes@[q].inn@.contains(y));
                        assert(y != id);
                        assert(g0.nodes@[q].inn@.contains(y));
                        let kk = choose|kk: int|
                            0 <= kk < g0.nodes@[q].inn@.len() && g0.nodes@[q].inn@[kk] == y;
                        assert(g0.node_alive(g0.nodes@[q].inn@[kk]));
                    }
                    if g1.nodes@[q].data is None {
                        assert(g0.nodes@[q].data is None);
                        assert(g0.nodes@[q].out@.len() == 0 && g0.nodes@[q].inn@.len() == 0);
                        assert(g1.nodes@[q].out@.len() == 0 && g1.nodes@[q].inn@.len() == 0);
                    }
                }
            }
            assert(g1.mirrored()) by {
                assert forall|a: NodeId, b: NodeId|
                    a < g1.nodes@.len() && b < g1.nodes@.len() implies (
                g1.nodes@[a as int].out@.contains(b) <==> g1.nodes@[b as int].inn@.contains(
                    a,
                )) by {
                    assert(g0.nodes@[a as int].out@.contains(b) <==> g0.nodes@[
                        b as int
                    ].inn@.contains(a));
                }
            }
            // the freed id joins a free list it was absent from
            assert(!g0.free@.contains(id)) by {
                if g0.free@.contains(id) {
                    let k = choose|k: int| 0 <= k < g0.free@.len() && g0.free@[k] == id;
                    assert(!g0.node_alive(g0.free@[k]));
                }
            }
            assert(g1.free@ == g0.free@.push(id));
            assert(g1.free@.no_duplicates());
            assert forall|k: int| 0 <= k < g1.free@.len() implies (#[trigger] g1.free@[k]) < n
                && !g1.node_alive(g1.free@[k]) by {
                if k < g0.free@.len() {
                    assert(g0.free@[k] < n && !g0.node_alive(g0.free@[k]));
                    assert(g0.free@[k] != id);
                }
            }
            lemma_acyclic_subset(g0, g1);
            assert forall|j: int|
                0 <= j < n implies (#[trigger] g1.nodes@[j].out@.len())
                <= g0.nodes@[j].out@.len() by {
                if j != id {
                    assert(g0.slot_wf(j));
                    lemma_purge(g0.nodes@[j].out@, id);
                }
            }
            // the edge count drops by exactly id's indegree plus outdegree
            assert(!g0.nodes@[id as int].out@.contains(id)) by {
                if g0.nodes@[id as int].out@.contains(id) {
                    assert(g0.edge_spec(id, id));
                    assert(g0.reach(id, id, 0));
                    assert(g0.reachable(id, id));
                }
            }
            assert forall|p: int|
                0 <= p < n && p != id implies (#[trigger] g1.nodes@[p].out@.len())
                == g0.nodes@[p].out@.len() - (if g0.nodes@[p].out@.contains(id) {
                1int
            } else {
                0int
            }) by {
                assert(g0.slot_wf(p));
                lemma_purge(g0.nodes@[p].out@, id);
            }
            lemma_edge_count_remove(g0, g1, id, n as int);
            lemma_count_pred_card(g0, id, n, n as int);
            assert(Set::new(|a: NodeId| (a as int) < n && g0.edge_spec(a, id))
                =~= g0.pred_of(id));
            g0.lemma_out_is_succs(id);
            g0.lemma_inn_is_preds(id);
            // remaining payloads keep their association
            assert forall|a: NodeId, b: NodeId|
                g0.edge_spec(a, b) && a != id && b != id implies g1.edge_data_spec(a, b)
                == g0.edge_data_spec(a, b) by {
                assert(g0.slot_wf(a as int));
                lemma_purge_data_align(
                    g0.nodes@[a as int].out@,
                    g0.nodes@[a as int].out_data@,
                    id,
                    b,
                );
            }
            assert(g1.live_nodes() =~= g0.live_nodes().remove(id));
            crate::helpers::lemma_id_range_finite(n);
            assert forall|i: NodeId| g0.live_nodes().contains(i) implies Set::new(
                |i: NodeId| i < n,
            ).contains(i) by {}
            vstd::set_lib::lemma_len_subset(g0.live_nodes(), Set::new(|i: NodeId| i < n));
            vstd::set::axiom_set_remove_len(g0.live_nodes(), id);
            assert(g0.live_nodes().contains(id));
        }
        Ok(())
    }
}

} // verus!
