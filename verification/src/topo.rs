use vstd::prelude::*;

use crate::dag::Dag;
use crate::dag::DagError;
use crate::dag::NodeId;
use crate::helpers::lemma_id_range_finite;
use crate::helpers::lemma_push_contains;
use crate::helpers::lemma_push_contains_all;
use crate::helpers::lemma_push_no_dup;
use crate::reach::lemma_reachable_step;
use crate::reach::lemma_reachable_trans;
use vstd::pervasive::VecAdditionalExecFns;
use vstd::set::axiom_set_remove_len;
use vstd::set_lib::lemma_len_subset;

verus! {

/// Number of entries among the first `k` of `s` whose flag in `pl` is not
/// yet set: the predecessors a node is still waiting on.
pub(crate) open spec fn count_unplaced(s: Seq<NodeId>, pl: Seq<bool>, k: int) -> nat
    decreases k,
{
    if k <= 0 {
        0
    } else {
        count_unplaced(s, pl, k - 1) + (if !pl[s[k - 1] as int] {
            1nat
        } else {
            0nat
        })
    }
}

/// With no flag set, every entry is counted.
pub(crate) proof fn lemma_count_unplaced_none(s: Seq<NodeId>, pl: Seq<bool>, k: int)
    requires
        k <= s.len(),
        forall|j: int| 0 <= j < s.len() ==> !pl[#[trigger] s[j] as int],
    ensures
        count_unplaced(s, pl, k) == (if k >= 0 {
            k
        } else {
            0
        }),
    decreases k,
{
    if k > 0 {
        lemma_count_unplaced_none(s, pl, k - 1);
    }
}

/// The count is zero exactly when every counted entry's flag is set.
pub(crate) proof fn lemma_count_unplaced_zero(s: Seq<NodeId>, pl: Seq<bool>, k: int)
    requires
        k <= s.len(),
    ensures
        (count_unplaced(s, pl, k) == 0) <==> (forall|j: int| 0 <= j < k ==> pl[#[trigger] s[j] as int]),
    decreases k,
{
    if k > 0 {
        lemma_count_unplaced_zero(s, pl, k - 1);
    }
}

/// Setting the flag of `u` lowers the count by one exactly for the
/// prefixes that mention `u`.
pub(crate) proof fn lemma_count_unplaced_update(s: Seq<NodeId>, pl: Seq<bool>, u: NodeId, k: int)
    requires
        s.no_duplicates(),
        u < pl.len(),
        !pl[u as int],
        0 <= k <= s.len(),
        forall|j: int| 0 <= j < s.len() ==> (#[trigger] s[j] as int) < pl.len(),
    ensures
        count_unplaced(s, pl.update(u as int, true), k) + (if s.subrange(0, k).contains(u) {
            1int
        } else {
            0int
        }) == count_unplaced(s, pl, k),
    decreases k,
{
    if k == 0 {
        assert(!s.subrange(0, k).contains(u)) by {
            if s.subrange(0, k).contains(u) {
                let j = choose|j: int|
                    0 <= j < s.subrange(0, k).len() && s.subrange(0, k)[j] == u;
            }
        }
    }
    if k > 0 {
        lemma_count_unplaced_update(s, pl, u, k - 1);
        let pre = s.subrange(0, k);
        let pre1 = s.subrange(0, k - 1);
        if s[k - 1] == u {
            assert(pl.update(u as int, true)[s[k - 1] as int]);
            assert(pre[k - 1] == u);
            assert(pre.contains(u));
            assert(!pre1.contains(u)) by {
                if pre1.contains(u) {
                    let j = choose|j: int| 0 <= j < k - 1 && pre1[j] == u;
                    assert(s[j] == u && s[k - 1] == u);
                }
            }
        } else {
            assert(pl.update(u as int, true)[s[k - 1] as int] == pl[s[k - 1] as int]);
            assert(pre.contains(u) == pre1.contains(u)) by {
                if pre.contains(u) {
                    let j = choose|j: int| 0 <= j < k && pre[j] == u;
                    assert(j != k - 1);
                    assert(pre1[j] == u);
                }
                if pre1.contains(u) {
                    let j = choose|j: int| 0 <= j < k - 1 && pre1[j] == u;
                    assert(pre[j] == u);
                }
            }
        }
    }
}

/// Dropping the head of a suffix: membership in `s[j..]` against `s[j+1..]`.
pub(crate) proof fn lemma_suffix_step(s: Seq<NodeId>, j: int)
    requires
        0 <= j < s.len(),
    ensures
        forall|y: NodeId|
            s.subrange(j, s.len() as int).contains(y) == (s[j] == y || s.subrange(
                j + 1,
                s.len() as int,
            ).contains(y)),
{
    let n = s.len() as int;
    assert forall|y: NodeId|
        s.subrange(j, n).contains(y) == (s[j] == y || s.subrange(j + 1, n).contains(y)) by {
        if s.subrange(j, n).contains(y) {
            let jj = choose|jj: int| 0 <= jj < n - j && s.subrange(j, n)[jj] == y;
            if jj > 0 {
                assert(s.subrange(j + 1, n)[jj - 1] == y);
            }
        }
        if s[j] == y {
            assert(s.subrange(j, n)[0] == y);
        }
        if s.subrange(j + 1, n).contains(y) {
            let jj = choose|jj: int|
                0 <= jj < n - j - 1 && #[trigger] s.subrange(j + 1, n)[jj] == y;
            assert(s.subrange(j, n)[jj + 1] == y);
        }
    }
}

/// A duplicate-free sequence of ids below `n` has at most `n` entries.
pub(crate) proof fn lemma_no_dup_bound(s: Seq<NodeId>, n: usize)
    requires
        s.no_duplicates(),
        forall|j: int| 0 <= j < s.len() ==> (#[trigger] s[j]) < n,
    ensures
        s.len() <= n,
{
    s.unique_seq_to_set();
    lemma_id_range_finite(n);
    assert forall|x: NodeId| s.to_set().contains(x) implies Set::new(|i: NodeId| i < n).contains(
        x,
    ) by {
        let j = choose|j: int| 0 <= j < s.len() && s[j] == x;
    }
    lemma_len_subset(s.to_set(), Set::new(|i: NodeId| i < n));
}

/// In a well-formed graph, any existing unmarked node leads (backwards
/// along edges) to an existing unmarked node all of whose predecessors are
/// marked: an endless chain of unmarked predecessors would have to close a
/// cycle. `pl` marks nodes.
pub(crate) proof fn lemma_find_ready<N, E>(g: Dag<N, E>, pl: Seq<bool>, x: NodeId) -> (y: NodeId)
    requires
        g.wf(),
        pl.len() == g.nodes@.len(),
        g.nodes@.len() <= usize::MAX,
        g.node_alive(x),
        !pl[x as int],
    ensures
        g.node_alive(y),
        !pl[y as int],
        forall|z: NodeId| #[trigger] g.edge_spec(z, y) ==> pl[z as int],
    decreases Set::new(|z: NodeId| g.node_alive(z) && g.reachable(z, x)).len(),
{
    if exists|z: NodeId| #[trigger] g.edge_spec(z, x) && !pl[z as int] {
        let n = g.nodes@.len() as usize;
        let above_x = Set::new(|z: NodeId| g.node_alive(z) && g.reachable(z, x));
        let w = choose|w: NodeId| #[trigger] g.edge_spec(w, x) && !pl[w as int];
        let above_w = Set::new(|z: NodeId| g.node_alive(z) && g.reachable(z, w));
        assert(above_x.contains(x)) by {
            assert(g.reach(x, x, 0));
        }
        assert forall|z: NodeId| above_w.contains(z) implies above_x.contains(z) by {
            assert(g.reachable(x, x)) by {
                assert(g.reach(x, x, 0));
            }
            lemma_reachable_step(g, w, x, x);
            lemma_reachable_trans(g, z, w, x);
        }
        assert(!above_w.contains(x)) by {
            if g.reachable(x, w) {
                assert(g.edge_spec(w, x) && g.reachable(x, w));
                assert(false);
            }
        }
        lemma_id_range_finite(n);
        assert forall|z: NodeId| above_x.contains(z) implies Set::new(|i: NodeId| i < n).contains(
            z,
        ) by {}
        lemma_len_subset(above_x, Set::new(|i: NodeId| i < n));
        assert(above_w.subset_of(above_x.remove(x)));
        axiom_set_remove_len(above_x, x);
        lemma_len_subset(above_w, above_x.remove(x));
        assert(above_w.len() < above_x.len());
        lemma_find_ready(g, pl, w)
    } else {
        x
    }
}

impl<N, E> Dag<N, E> {
    /// Number of predecessors of `i` not yet placed in the output order:
    /// the value a node's remaining-indegree counter tracks.
    pub(crate) open spec fn rem_preds(self, pl: Seq<bool>, i: int) -> nat {
        count_unplaced(self.nodes@[i].inn@, pl, self.nodes@[i].inn@.len() as int)
    }

    /// An ordering of all existing nodes in which every edge points
    /// forward: for every edge `from -> to` present at the time of the
    /// call, `from` appears before `to`, and the output length equals
    /// `node_count()`. Computed by Kahn's algorithm. Since the graph is
    /// acyclic by construction, the call always succeeds.
    pub fn topological_sort(&self) -> (r: Result<Vec<NodeId>, DagError>)
        requires
            self.wf(),
        ensures
            r is Ok,
            match r {
                Ok(v) => {
                    &&& v@.no_duplicates()
                    &&& forall|i: NodeId| v@.contains(i) == self.node_alive(i)
                    &&& v@.len() == self.node_count_spec()
                    &&& forall|k2: int, a: NodeId|
                        0 <= k2 < v@.len() && #[trigger] self.edge_spec(a, v@[k2]) ==> exists|
                            k1: int,
                        |
                            0 <= k1 < k2 && v@[k1] == a
                    &&& forall|k1: int, k2: int|
                        0 <= k1 <= k2 < v@.len() ==> !self.edge_spec(v@[k2], v@[k1])
                },
                Err(_) => false,
            },
    {
        let n = self.nodes.len();
        let mut indeg: Vec<usize> = Vec::new();
        let mut k: usize = 0;
        while k < n
            invariant
                self.wf(),
                k <= n,
                n == self.nodes@.len(),
                indeg@.len() == k,
                forall|i: int| 0 <= i < k ==> indeg@[i] == self.nodes@[i].inn@.len(),
            decreases n - k,
        {
            indeg.push(self.nodes[k].inn.len());
            k = k + 1;
        }
        let mut placed: Vec<bool> = Vec::new();
        let mut k2: usize = 0;
        while k2 < n
            invariant
                k2 <= n,
                placed@.len() == k2,
                forall|i: int| 0 <= i < k2 ==> !placed@[i],
            decreases n - k2,
        {
            placed.push(false);
            k2 = k2 + 1;
        }
        let mut queue: Vec<NodeId> = Vec::new();
        let mut k3: usize = 0;
        while k3 < n
            invariant
                self.wf(),
                k3 <= n,
                n == self.nodes@.len(),
                indeg@.len() == n,
                forall|i: int| 0 <= i < n ==> indeg@[i] == self.nodes@[i].inn@.len(),
                queue@.no_duplicates(),
                forall|j: int| 0 <= j < queue@.len() ==> (#[trigger] queue@[j]) < k3,
                forall|i: NodeId|
                    i < k3 ==> queue@.contains(i) == (self.node_alive(i) && indeg@[i as int] == 0),
                forall|i: NodeId| i >= k3 ==> !queue@.contains(i),
            decreases n - k3,
        {
            let ghost q0 = queue@;
            if self.has_node(k3) && indeg[k3] == 0 {
                queue.push(k3);
                proof {
                    lemma_push_contains_all(q0, k3);
                }
            }
            proof {
                assert forall|i: NodeId|
                    i < k3 + 1 implies queue@.contains(i) == (self.node_alive(i) && indeg@[
                    i as int
                ] == 0) by {
                    if i < k3 {
                        assert(q0.contains(i) == (self.node_alive(i) && indeg@[i as int] == 0));
                        assert(queue@.contains(i) == q0.contains(i));
                    } else {
                        assert(i == k3);
                        assert(!q0.contains(i));
                    }
                }
            }
            k3 = k3 + 1;
        }
        let mut order: Vec<NodeId> = Vec::new();
        proof {
            assert forall|i: NodeId| self.node_alive(i) implies indeg@[i as int] == self.rem_preds(
                placed@,
                i as int,
            ) by {
                assert(self.slot_wf(i as int));
                let s = self.nodes@[i as int].inn@;
                assert forall|j: int| 0 <= j < s.len() implies !placed@[#[trigger] s[j] as int] by {
                    assert(self.node_alive(s[j]));
                }
                lemma_count_unplaced_none(s, placed@, s.len() as int);
            }
        }
        while queue.len() > 0
            invariant
                self.wf(),
                n == self.nodes@.len(),
                indeg@.len() == n,
                placed@.len() == n,
                order@.no_duplicates(),
                order@.len() <= n,
                forall|j: int| 0 <= j < order@.len() ==> self.node_alive(#[trigger] order@[j]),
                forall|i: NodeId| i < n ==> placed@[i as int] == order@.contains(i),
                forall|i: NodeId|
                    self.node_alive(i) ==> indeg@[i as int] == self.rem_preds(placed@, i as int),
                queue@.no_duplicates(),
                forall|j: int| 0 <= j < queue@.len() ==> (#[trigger] queue@[j]) < n,
                forall|i: NodeId|
                    i < n ==> queue@.contains(i) == (self.node_alive(i) && !placed@[i as int]
                        && indeg@[i as int] == 0),
                forall|i: NodeId| i >= n ==> !queue@.contains(i),
                forall|j: int, a: NodeId|
                    0 <= j < order@.len() && #[trigger] self.edge_spec(a, order@[j]) ==> exists|
                        j2: int,
                    |
                        0 <= j2 < j && order@[j2] == a,
            decreases n - order@.len(),
        {
            let ghost placed0 = placed@;
            let ghost order0 = order@;
            let ghost queue0 = queue@;
            let u = queue.pop().unwrap();
            proof {
                assert(queue0.contains(u)) by {
                    assert(queue0[queue0.len() - 1] == u);
                }
                assert(self.node_alive(u) && !placed0[u as int] && indeg@[u as int] == 0);
                assert forall|i: NodeId| i != u && !queue@.contains(i) implies !queue0.contains(
                    i,
                ) by {
                    if queue0.contains(i) {
                        let jj = choose|jj: int| 0 <= jj < queue0.len() && queue0[jj] == i;
                        assert(jj < queue0.len() - 1);
                        assert(queue@[jj] == i);
                    }
                }
                assert forall|i: NodeId| queue@.contains(i) implies queue0.contains(i) by {
                    let jj = choose|jj: int| 0 <= jj < queue@.len() && queue@[jj] == i;
                    assert(queue0[jj] == i);
                }
                assert(!queue@.contains(u)) by {
                    if queue@.contains(u) {
                        let jj = choose|jj: int| 0 <= jj < queue@.len() && queue@[jj] == u;
                        assert(queue0[jj] == u);
                        assert(jj != queue0.len() - 1);
                    }
                }
            }
            order.push(u);
            placed.set(u, true);
            let deg = self.nodes[u].out.len();
            proof {
                let oo = self.nodes@[u as int].out@;
                // the new entry's predecessors are all already in the order
                assert(!order0.contains(u));
                lemma_push_no_dup(order0, u);
                assert(self.slot_wf(u as int));
                let s = self.nodes@[u as int].inn@;
                lemma_count_unplaced_zero(s, placed0, s.len() as int);
                self.lemma_inn_is_preds(u);
                self.lemma_out_is_succs(u);
                assert forall|i: NodeId| i < n implies placed@[i as int] == order@.contains(i) by {
                    lemma_push_contains(order0, u, i);
                    assert(placed0[i as int] == order0.contains(i));
                }
                assert forall|j: int, a: NodeId|
                    0 <= j < order@.len() && #[trigger] self.edge_spec(a, order@[j])
                        implies exists|j2: int| 0 <= j2 < j && order@[j2] == a by {
                    if j < order0.len() {
                        assert(order0[j] == order@[j]);
                        let j2 = choose|j2: int| 0 <= j2 < j && order0[j2] == a;
                        assert(order@[j2] == a);
                    } else {
                        // order@[j] == u, and every predecessor of u is placed
                        assert(order@[j] == u);
                        assert(s.contains(a));
                        let jj = choose|jj: int| 0 <= jj < s.len() && s[jj] == a;
                        assert(placed0[s[jj] as int]);
                        assert(order0.contains(a));
                        let j2 = choose|j2: int| 0 <= j2 < order0.len() && order0[j2] == a;
                        assert(order@[j2] == a);
                    }
                }
                lemma_no_dup_bound(order@, n);
                // placing u lowers each waiting count by one per edge out of u
                assert(oo.subrange(0, deg as int) =~= oo);
                assert forall|i: NodeId| self.node_alive(i) implies indeg@[i as int]
                    == self.rem_preds(placed@, i as int) + (if oo.subrange(0, deg as int).contains(
                    i,
                ) {
                    1int
                } else {
                    0int
                }) by {
                    assert(self.slot_wf(i as int));
                    let si = self.nodes@[i as int].inn@;
                    assert forall|jx: int| 0 <= jx < si.len() implies (#[trigger] si[jx] as int)
                        < n by {
                        assert(self.node_alive(si[jx]));
                    }
                    lemma_count_unplaced_update(si, placed0, u, si.len() as int);
                    assert(si.subrange(0, si.len() as int) =~= si);
                    self.lemma_inn_is_preds(i);
                    assert(si.contains(u) == self.edge_spec(u, i));
                    assert(oo.contains(i) == self.edge_spec(u, i));
                }
                // u's successors cannot be placed yet: their predecessor u
                // joined the order only now
                assert forall|i: NodeId| oo.contains(i) implies !placed@[i as int] by {
                    assert(self.edge_spec(u, i));
                    assert(i != u) by {
                        if i == u {
                            assert(self.reach(u, u, 0));
                            assert(self.reachable(u, u));
                        }
                    }
                    if placed0[i as int] {
                        assert(order0.contains(i));
                        let jj = choose|jj: int| 0 <= jj < order0.len() && order0[jj] == i;
                        assert(order@[jj] == i);
                        assert(self.edge_spec(u, order@[jj]));
                        let j2 = choose|j2: int| 0 <= j2 < jj && order@[j2] == u;
                        assert(order0[j2] == u);
                        assert(order0.contains(u));
                        assert(false);
                    }
                }
                // queue membership at the start of the successor pass
                assert forall|i: NodeId|
                    i < n implies queue@.contains(i) == (self.node_alive(i) && !placed@[i as int]
                    && indeg@[i as int] == 0 && !oo.subrange(0, deg as int).contains(i)) by {
                    if i == u {
                        assert(placed@[u as int]);
                    } else {
                        assert(queue0.contains(i) == (self.node_alive(i) && !placed0[i as int]
                            && indeg@[i as int] == 0));
                        if self.node_alive(i) && !placed@[i as int] && indeg@[i as int] == 0
                            && oo.contains(i) {
                            let si = self.nodes@[i as int].inn@;
                            lemma_count_unplaced_zero(si, placed0, si.len() as int);
                            self.lemma_inn_is_preds(i);
                            assert(si.contains(u));
                            let jz = choose|jz: int| 0 <= jz < si.len() && si[jz] == u;
                            assert(placed0[si[jz] as int]);
                            assert(false);
                        }
                    }
                }
            }
            let mut j: usize = 0;
            while j < deg
                invariant
                    self.wf(),
                    n == self.nodes@.len(),
                    indeg@.len() == n,
                    placed@.len() == n,
                    u < n,
                    deg == self.nodes@[u as int].out@.len(),
                    j <= deg,
                    order@.no_duplicates(),
                    order@.len() <= n,
                    forall|jj: int| 0 <= jj < order@.len() ==> self.node_alive(#[trigger] order@[jj]),
                    forall|i: NodeId| i < n ==> placed@[i as int] == order@.contains(i),
                    placed@[u as int],
                    forall|i: NodeId|
                        self.nodes@[u as int].out@.contains(i) ==> !placed@[i as int],
                    forall|i: NodeId|
                        self.node_alive(i) ==> indeg@[i as int] == self.rem_preds(placed@, i as int)
                            + (if self.nodes@[u as int].out@.subrange(
                            j as int,
                            deg as int,
                        ).contains(i) {
                            1int
                        } else {
                            0int
                        }),
                    queue@.no_duplicates(),
                    forall|jj: int| 0 <= jj < queue@.len() ==> (#[trigger] queue@[jj]) < n,
                    forall|i: NodeId|
                        i < n ==> queue@.contains(i) == (self.node_alive(i) && !placed@[i as int]
                            && indeg@[i as int] == 0 && !self.nodes@[u as int].out@.subrange(
                            j as int,
                            deg as int,
                        ).contains(i)),
                    forall|i: NodeId| i >= n ==> !queue@.contains(i),
                    forall|jj: int, a: NodeId|
                        0 <= jj < order@.len() && #[trigger] self.edge_spec(a, order@[jj])
                            ==> exists|j2: int| 0 <= j2 < jj && order@[j2] == a,
                decreases deg - j,
            {
                let sc = self.nodes[u].out[j];
                proof {
                    assert(self.slot_wf(u as int));
                    assert(self.node_alive(self.nodes@[u as int].out@[j as int]));
                    lemma_suffix_step(self.nodes@[u as int].out@, j as int);
                    assert(self.nodes@[u as int].out@.subrange(j as int, deg as int).contains(
                        sc,
                    )) by {
                        assert(self.nodes@[u as int].out@.subrange(j as int, deg as int)[0] == sc);
                    }
                    // sc occurs only once in the outgoing list
                    assert(!self.nodes@[u as int].out@.subrange(j as int + 1, deg as int).contains(
                        sc,
                    )) by {
                        if self.nodes@[u as int].out@.subrange(j as int + 1, deg as int).contains(
                            sc,
                        ) {
                            let jj = choose|jj: int|
                                0 <= jj < deg - j - 1 && #[trigger] self.nodes@[
                                    u as int
                                ].out@.subrange(j as int + 1, deg as int)[jj] == sc;
                            assert(self.nodes@[u as int].out@[j as int + 1 + jj] == sc);
                        }
                    }
                    assert(self.nodes@[u as int].out@.contains(sc)) by {
                        assert(self.nodes@[u as int].out@[j as int] == sc);
                    }
                    assert(!placed@[sc as int]);
                }
                let d = indeg[sc];
                proof {
                    assert(d == self.rem_preds(placed@, sc as int) + 1);
                }
                let ghost indeg0 = indeg@;
                indeg.set(sc, d - 1);
                let ghost queue1 = queue@;
                if d - 1 == 0 {
                    proof {
                        assert(!queue1.contains(sc));
                        lemma_push_contains_all(queue1, sc);
                    }
                    queue.push(sc);
                }
                proof {
                    assert forall|i: NodeId|
                        self.node_alive(i) implies indeg@[i as int] == self.rem_preds(
                        placed@,
                        i as int,
                    ) + (if self.nodes@[u as int].out@.subrange(j as int + 1, deg as int).contains(
                        i,
                    ) {
                        1int
                    } else {
                        0int
                    }) by {
                        lemma_suffix_step(self.nodes@[u as int].out@, j as int);
                        assert(indeg0[i as int] == self.rem_preds(placed@, i as int) + (
                        if self.nodes@[u as int].out@.subrange(j as int, deg as int).contains(i) {
                            1int
                        } else {
                            0int
                        }));
                        if i != sc {
                            assert(indeg@[i as int] == indeg0[i as int]);
                        }
                    }
                    assert forall|i: NodeId|
                        i < n implies queue@.contains(i) == (self.node_alive(i) && !placed@[
                        i as int
                    ] && indeg@[i as int] == 0 && !self.nodes@[u as int].out@.subrange(
                        j as int + 1,
                        deg as int,
                    ).contains(i)) by {
                        lemma_suffix_step(self.nodes@[u as int].out@, j as int);
                        assert(queue1.contains(i) == (self.node_alive(i) && !placed@[i as int]
                            && indeg0[i as int] == 0 && !self.nodes@[u as int].out@.subrange(
                            j as int,
                            deg as int,
                        ).contains(i)));
                        if d - 1 == 0 {
                            assert(queue@.contains(i) == (queue1.contains(i) || i == sc));
                        } else {
                            assert(queue@ == queue1);
                        }
                        if i != sc {
                            assert(indeg@[i as int] == indeg0[i as int]);
                        }
                    }
                }
                j = j + 1;
            }
            proof {
                assert(self.nodes@[u as int].out@.subrange(deg as int, deg as int)
                    =~= Seq::<NodeId>::empty());
                assert forall|i: NodeId| self.node_alive(i) implies indeg@[i as int]
                    == self.rem_preds(placed@, i as int) by {
                    assert(!self.nodes@[u as int].out@.subrange(deg as int, deg as int).contains(
                        i,
                    ));
                }
                assert forall|i: NodeId|
                    i < n implies queue@.contains(i) == (self.node_alive(i) && !placed@[i as int]
                    && indeg@[i as int] == 0) by {
                    assert(!self.nodes@[u as int].out@.subrange(deg as int, deg as int).contains(
                        i,
                    ));
                }
            }
        }
        proof {
            // the queue is empty; were any node still unplaced, every
            // unplaced node would wait on another unplaced one, which the
            // acyclicity of the graph rules out
            if exists|x: NodeId| self.node_alive(x) && !placed@[x as int] {
                let x = choose|x: NodeId| self.node_alive(x) && !placed@[x as int];
                let y = lemma_find_ready(*self, placed@, x);
                // every predecessor of y is placed, so y is ready and would
                // still be on the (empty) queue
                let s = self.nodes@[y as int].inn@;
                assert(self.slot_wf(y as int));
                self.lemma_inn_is_preds(y);
                lemma_count_unplaced_zero(s, placed@, s.len() as int);
                assert forall|j: int| 0 <= j < s.len() implies placed@[#[trigger] s[j] as int] by {
                    assert(s.contains(s[j]));
                    assert(self.edge_spec(s[j], y));
                }
                assert(indeg@[y as int] == 0);
                assert(queue@.contains(y));
                assert(false);
            }
            assert forall|i: NodeId| order@.contains(i) == self.node_alive(i) by {
                if order@.contains(i) {
                    let j = choose|j: int| 0 <= j < order@.len() && order@[j] == i;
                    assert(self.node_alive(order@[j]));
                }
                if self.node_alive(i) {
                    assert(placed@[i as int]);
                }
            }
            order@.unique_seq_to_set();
            assert(order@.to_set() =~= self.live_nodes());
            // no edge points backward in the order
            assert forall|k1: int, kk2: int|
                0 <= k1 <= kk2 < order@.len() implies !self.edge_spec(
                order@[kk2],
                order@[k1],
            ) by {
                if self.edge_spec(order@[kk2], order@[k1]) {
                    let j2 = choose|j2: int| 0 <= j2 < k1 && order@[j2] == order@[kk2];
                    assert(order@[j2] == order@[kk2] && j2 < kk2);
                }
            }
        }
        Ok(order)
    }

    /// Whether any directed cycle exists. Edge insertion already rejects
    /// every cycle, so this defensive check always returns false; it runs
    /// the full ordering pass rather than trusting that argument.
    pub fn is_cyclic(&self) -> (r: bool)
        requires
            self.wf(),
        ensures
            !r,
    {
        self.topological_sort().is_err()
    }
}

} // verus!
