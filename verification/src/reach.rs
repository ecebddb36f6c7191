use vstd::prelude::*;

use crate::dag::Dag;
use crate::dag::NodeId;
use crate::helpers::count_true;
use crate::helpers::lemma_count_true_bound;
use crate::helpers::lemma_count_true_update;
use vstd::pervasive::VecAdditionalExecFns;

verus! {

/// Reachability within `k` steps also holds within any larger bound.
pub(crate) proof fn lemma_reach_widen<N, E>(g: Dag<N, E>, a: NodeId, b: NodeId, k1: nat, k2: nat)
    requires
        g.reach(a, b, k1),
        k1 <= k2,
    ensures
        g.reach(a, b, k2),
    decreases k1,
{
    if a != b {
        let m = choose|m: NodeId| g.edge_spec(a, m) && g.reach(m, b, (k1 - 1) as nat);
        lemma_reach_widen(g, m, b, (k1 - 1) as nat, (k2 - 1) as nat);
    }
}

/// Paths compose: a path from `a` to `b` followed by one from `b` to `c`
/// gives a path from `a` to `c`.
pub(crate) proof fn lemma_reach_trans<N, E>(
    g: Dag<N, E>,
    a: NodeId,
    b: NodeId,
    c: NodeId,
    k1: nat,
    k2: nat,
)
    requires
        g.reach(a, b, k1),
        g.reach(b, c, k2),
    ensures
        g.reach(a, c, k1 + k2),
    decreases k1,
{
    if a == b {
        lemma_reach_widen(g, b, c, k2, k1 + k2);
    } else {
        let m = choose|m: NodeId| g.edge_spec(a, m) && g.reach(m, b, (k1 - 1) as nat);
        lemma_reach_trans(g, m, b, c, (k1 - 1) as nat, k2);
        assert(g.reach(a, c, k1 + k2)) by {
            assert(g.edge_spec(a, m) && g.reach(m, c, (k1 + k2 - 1) as nat));
        }
    }
}

/// `reachable` composes: convenience form of `lemma_reach_trans`.
pub(crate) proof fn lemma_reachable_trans<N, E>(g: Dag<N, E>, a: NodeId, b: NodeId, c: NodeId)
    requires
        g.reachable(a, b),
        g.reachable(b, c),
    ensures
        g.reachable(a, c),
{
    let k1 = choose|k: nat| g.reach(a, b, k);
    let k2 = choose|k: nat| g.reach(b, c, k);
    lemma_reach_trans(g, a, b, c, k1, k2);
}

/// An edge followed by a path is a path.
pub(crate) proof fn lemma_reachable_step<N, E>(g: Dag<N, E>, a: NodeId, m: NodeId, b: NodeId)
    requires
        g.edge_spec(a, m),
        g.reachable(m, b),
    ensures
        g.reachable(a, b),
{
    let k = choose|k: nat| g.reach(m, b, k);
    assert(g.reach(a, b, k + 1));
}

/// Growing the edge relation preserves every path.
pub(crate) proof fn lemma_reach_monotone<N, E>(
    g1: Dag<N, E>,
    g2: Dag<N, E>,
    x: NodeId,
    y: NodeId,
    k: nat,
)
    requires
        forall|a: NodeId, b: NodeId| #[trigger] g1.edge_spec(a, b) ==> g2.edge_spec(a, b),
        g1.reach(x, y, k),
    ensures
        g2.reach(x, y, k),
    decreases k,
{
    if x != y {
        let m = choose|m: NodeId| g1.edge_spec(x, m) && g1.reach(m, y, (k - 1) as nat);
        lemma_reach_monotone(g1, g2, m, y, (k - 1) as nat);
        assert(g2.edge_spec(x, m) && g2.reach(m, y, (k - 1) as nat));
    }
}

/// Removing edges from an acyclic graph keeps it acyclic.
pub(crate) proof fn lemma_acyclic_subset<N, E>(g1: Dag<N, E>, g2: Dag<N, E>)
    requires
        g1.acyclic(),
        forall|a: NodeId, b: NodeId| #[trigger] g2.edge_spec(a, b) ==> g1.edge_spec(a, b),
    ensures
        g2.acyclic(),
{
    assert forall|a: NodeId, b: NodeId| #[trigger] g2.edge_spec(a, b) implies !g2.reachable(
        b,
        a,
    ) by {
        if g2.reachable(b, a) {
            let k = choose|k: nat| g2.reach(b, a, k);
            lemma_reach_monotone(g2, g1, b, a, k);
            assert(g1.reach(b, a, k));
            assert(g1.edge_spec(a, b) && g1.reachable(b, a));
        }
    }
}

/// A set of nodes that contains `a` and is closed under following edges
/// contains everything reachable from `a`.
pub(crate) proof fn lemma_reach_closed_set<N, E>(
    g: Dag<N, E>,
    s: Set<NodeId>,
    a: NodeId,
    b: NodeId,
    k: nat,
)
    requires
        s.contains(a),
        forall|x: NodeId, y: NodeId| s.contains(x) && #[trigger] g.edge_spec(x, y) ==> s.contains(y),
        g.reach(a, b, k),
    ensures
        s.contains(b),
    decreases k,
{
    if a != b {
        let m = choose|m: NodeId| g.edge_spec(a, m) && g.reach(m, b, (k - 1) as nat);
        lemma_reach_closed_set(g, s, m, b, (k - 1) as nat);
    }
}

/// Any path in the graph extended by the candidate edge `from -> to`
/// decomposes into old paths: either it avoids the new edge, or it runs to
/// `from`, crosses the new edge, and continues from `to`.
pub(crate) proof fn lemma_reach_new_edge<N, E>(
    g1: Dag<N, E>,
    g2: Dag<N, E>,
    from: NodeId,
    to: NodeId,
    x: NodeId,
    y: NodeId,
    k: nat,
)
    requires
        forall|a: NodeId, b: NodeId|
            #[trigger] g2.edge_spec(a, b) <==> (g1.edge_spec(a, b) || (a == from && b == to)),
        !g1.reachable(to, from),
        g2.reach(x, y, k),
    ensures
        g1.reachable(x, y) || (g1.reachable(x, from) && g1.reachable(to, y)),
    decreases k,
{
    if x == y {
        assert(g1.reach(x, y, 0));
    } else {
        let m = choose|m: NodeId| g2.edge_spec(x, m) && g2.reach(m, y, (k - 1) as nat);
        lemma_reach_new_edge(g1, g2, from, to, m, y, (k - 1) as nat);
        if g1.edge_spec(x, m) {
            if g1.reachable(m, y) {
                lemma_reachable_step(g1, x, m, y);
            } else {
                lemma_reachable_step(g1, x, m, from);
            }
        } else {
            // the first step is the new edge: x == from, m == to
            if g1.reachable(m, y) {
                assert(g1.reach(x, from, 0));
            } else {
                // g1.reachable(to, from) would follow, contradicting the premise
                assert(false);
            }
        }
    }
}

/// The cycle check of `add_edge` is exact: inserting `from -> to` into an
/// acyclic graph keeps it acyclic whenever `to` cannot already reach `from`.
pub(crate) proof fn lemma_add_edge_acyclic<N, E>(
    g1: Dag<N, E>,
    g2: Dag<N, E>,
    from: NodeId,
    to: NodeId,
)
    requires
        forall|a: NodeId, b: NodeId|
            #[trigger] g2.edge_spec(a, b) <==> (g1.edge_spec(a, b) || (a == from && b == to)),
        g1.acyclic(),
        !g1.reachable(to, from),
    ensures
        g2.acyclic(),
{
    assert forall|a: NodeId, b: NodeId| #[trigger] g2.edge_spec(a, b) implies !g2.reachable(
        b,
        a,
    ) by {
        if g2.reachable(b, a) {
            let k = choose|k: nat| g2.reach(b, a, k);
            lemma_reach_new_edge(g1, g2, from, to, b, a, k);
            if g1.edge_spec(a, b) {
                if g1.reachable(b, a) {
                    assert(false);
                } else {
                    // b reaches from, and to reaches a, so to reaches from
                    lemma_reachable_step(g1, a, b, from);
                    lemma_reachable_trans(g1, to, a, from);
                    assert(false);
                }
            } else {
                // a == from, b == to: either branch yields to reaching from
                if g1.reachable(b, a) {
                    assert(false);
                } else {
                    lemma_reachable_trans(g1, to, a, from);
                    assert(false);
                }
            }
        }
    }
}

impl<N, E> Dag<N, E> {
    /// Whether a directed path leads from `src` to `dst` in the current
    /// graph, computed by a breadth-first search over the outgoing lists.
    /// Visited nodes are marked so each node is expanded at most once.
    pub fn can_reach(&self, src: NodeId, dst: NodeId) -> (r: bool)
        requires
            self.wf(),
            self.node_alive(src),
        ensures
            r == self.reachable(src, dst),
    {
        let n = self.nodes.len();
        if src == dst {
            proof {
                assert(self.reach(src, dst, 0));
            }
            return true;
        }
        let mut visited: Vec<bool> = Vec::new();
        let mut k: usize = 0;
        while k < n
            invariant
                visited@.len() == k,
                k <= n,
                forall|j: int| 0 <= j < k ==> !visited@[j],
            decreases n - k,
        {
            visited.push(false);
            k = k + 1;
        }
        let ghost vfill = visited@;
        let mut stack: Vec<NodeId> = Vec::new();
        stack.push(src);
        visited.set(src, true);
        proof {
            assert(count_true(vfill, n as int) == 0) by {
                crate::helpers::lemma_count_true_all_false(vfill, n as int);
            }
            lemma_count_true_update(vfill, src as int, n as int);
            assert(visited@ == vfill.update(src as int, true));
            assert(self.reach(src, src, 0));
            assert(stack@.contains(src)) by {
                assert(stack@[0] == src);
            }
        }
        while stack.len() > 0
            invariant
                self.wf(),
                self.node_alive(src),
                src != dst,
                visited@.len() == n,
                n == self.nodes@.len(),
                forall|j: int| 0 <= j < stack@.len() ==> (#[trigger] stack@[j]) < n,
                forall|j: int| 0 <= j < stack@.len() ==> visited@[#[trigger] stack@[j] as int],
                forall|i: NodeId| i < n && visited@[i as int] ==> self.reachable(src, i),
                visited@[src as int],
                !visited@[dst as int] || dst >= n,
                forall|i: NodeId, b: NodeId|
                    i < n && visited@[i as int] && !stack@.contains(i) && #[trigger] self.edge_spec(
                        i,
                        b,
                    ) ==> visited@[b as int],
                count_true(visited@, n as int) <= n,
            decreases n - count_true(visited@, n as int), stack@.len(),
        {
            let ghost visited0 = visited@;
            let ghost stack0 = stack@;
            let u = stack.pop().unwrap();
            proof {
                assert(stack@ == stack0.drop_last());
                assert forall|i: NodeId| i != u && !stack@.contains(i) implies !stack0.contains(
                    i,
                ) by {
                    if stack0.contains(i) {
                        let jj = choose|jj: int| 0 <= jj < stack0.len() && stack0[jj] == i;
                        assert(stack0.last() == u);
                        assert(jj < stack0.len() - 1);
                        assert(stack@[jj] == i);
                    }
                }
            }
            let deg = self.nodes[u].out.len();
            let mut j: usize = 0;
            let ghost mut pushed: int = 0;
            while j < deg
                invariant
                    self.wf(),
                    self.node_alive(src),
                    src != dst,
                    u < n,
                    visited@.len() == n,
                    n == self.nodes@.len(),
                    deg == self.nodes@[u as int].out@.len(),
                    j <= deg,
                    visited@[u as int],
                    forall|jj: int| 0 <= jj < stack@.len() ==> (#[trigger] stack@[jj]) < n,
                    forall|jj: int| 0 <= jj < stack@.len() ==> visited@[#[trigger] stack@[jj] as int],
                    forall|i: NodeId| i < n && visited@[i as int] ==> self.reachable(src, i),
                    visited@[src as int],
                    !visited@[dst as int] || dst >= n,
                    // every node finished before this iteration keeps its closure
                    forall|i: NodeId, b: NodeId|
                        i < n && visited@[i as int] && !stack@.contains(i) && i != u
                            && #[trigger] self.edge_spec(i, b) ==> visited@[b as int],
                    // u's successors seen so far are visited
                    forall|jj: int|
                        0 <= jj < j ==> visited@[#[trigger] self.nodes@[u as int].out@[jj] as int],
                    // old visited entries stay visited
                    forall|i: int| 0 <= i < n && visited0[i] ==> visited@[i],
                    count_true(visited@, n as int) == count_true(visited0, n as int) + pushed,
                    pushed >= 0,
                    count_true(visited@, n as int) <= n,
                    pushed > 0 || stack@ == stack0.drop_last(),
                decreases deg - j,
            {
                let s = self.nodes[u].out[j];
                proof {
                    assert(self.slot_wf(u as int));
                    assert(self.node_alive(self.nodes@[u as int].out@[j as int]));
                }
                if s == dst {
                    proof {
                        assert(self.edge_spec(u, s));
                        assert(self.reachable(s, dst)) by {
                            assert(self.reach(s, dst, 0));
                        }
                        lemma_reachable_step(*self, u, s, dst);
                        lemma_reachable_trans(*self, src, u, dst);
                    }
                    return true;
                }
                if !visited[s] {
                    let ghost stk_b = stack@;
                    let ghost vis_b = visited@;
                    proof {
                        lemma_count_true_update(visited@, s as int, n as int);
                        lemma_count_true_bound(visited@.update(s as int, true), n as int);
                    }
                    visited.set(s, true);
                    stack.push(s);
                    proof {
                        pushed = pushed + 1;
                        assert(self.edge_spec(u, s));
                        assert(self.reachable(s, s)) by {
                            assert(self.reach(s, s, 0));
                        }
                        lemma_reachable_step(*self, u, s, s);
                        lemma_reachable_trans(*self, src, u, s);
                        assert(stack@ == stk_b.push(s));
                        assert(stack@.contains(s)) by {
                            assert(stack@[stack@.len() - 1] == s);
                        }
                        assert forall|i: NodeId| !stack@.contains(i) implies !stk_b.contains(
                            i,
                        ) by {
                            if stk_b.contains(i) {
                                let jj = choose|jj: int|
                                    0 <= jj < stk_b.len() && stk_b[jj] == i;
                                assert(stack@[jj] == i);
                            }
                        }
                        assert(visited@ == vis_b.update(s as int, true));
                    }
                }
                j = j + 1;
            }
            proof {
                // now u itself is fully expanded
                assert forall|i: NodeId, b: NodeId|
                    i < n && visited@[i as int] && !stack@.contains(i) && #[trigger] self.edge_spec(
                        i,
                        b,
                    ) implies visited@[b as int] by {
                    if i == u {
                        let kk = choose|kk: int|
                            0 <= kk < self.nodes@[u as int].out@.len() && self.nodes@[
                                u as int
                            ].out@[kk] == b;
                        assert(visited@[self.nodes@[u as int].out@[kk] as int]);
                    }
                }
            }
        }
        proof {
            let s = Set::new(|i: NodeId| i < n && visited@[i as int]);
            assert forall|x: NodeId, y: NodeId|
                s.contains(x) && #[trigger] self.edge_spec(x, y) implies s.contains(y) by {
                assert(!stack@.contains(x));
            }
            if self.reachable(src, dst) {
                let k = choose|k: nat| self.reach(src, dst, k);
                lemma_reach_closed_set(*self, s, src, dst, k);
                assert(false);
            }
        }
        false
    }
}

} // verus!
