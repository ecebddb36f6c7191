use vstd::prelude::*;

use crate::dag::Dag;
use crate::dag::NodeId;

verus! {

/// The sequence `p` walks the graph along edges: each entry has an edge to
/// the next.
pub open spec fn is_path<N, E>(g: Dag<N, E>, p: Seq<NodeId>) -> bool {
    &&& p.len() >= 1
    &&& forall|j: int| 0 <= j < p.len() - 1 ==> g.edge_spec(#[trigger] p[j], p[j + 1])
}

/// A directed cycle: a walk of at least one edge that returns to its start.
pub open spec fn is_cycle_path<N, E>(g: Dag<N, E>, p: Seq<NodeId>) -> bool {
    &&& is_path(g, p)
    &&& p.len() >= 2
    &&& p[0] == p[p.len() - 1]
}

/// A walk of the graph witnesses reachability from its first to its last
/// entry.
pub proof fn lemma_path_reach<N, E>(g: Dag<N, E>, p: Seq<NodeId>)
    requires
        is_path(g, p),
    ensures
        g.reach(p[0], p[p.len() - 1], (p.len() - 1) as nat),
    decreases p.len(),
{
    if p.len() > 1 {
        let q = p.subrange(1, p.len() as int);
        assert(is_path(g, q)) by {
            assert forall|j: int| 0 <= j < q.len() - 1 implies g.edge_spec(
                #[trigger] q[j],
                q[j + 1],
            ) by {
                assert(q[j] == p[j + 1] && q[j + 1] == p[j + 2]);
            }
        }
        lemma_path_reach(g, q);
        assert(g.edge_spec(p[0], q[0]));
        assert(g.reach(q[0], p[p.len() - 1], (p.len() - 2) as nat));
    }
}

/// Acyclicity invariant: no sequence of edges in a well-formed graph forms
/// a directed cycle. Every constructor and mutating operation of `Dag`
/// establishes or preserves `wf()`, so this holds after any sequence of
/// successful calls.
pub proof fn lemma_acyclic_no_cycle<N, E>(g: Dag<N, E>, p: Seq<NodeId>)
    requires
        g.wf(),
    ensures
        !is_cycle_path(g, p),
{
    if is_cycle_path(g, p) {
        let q = p.subrange(1, p.len() as int);
        assert(is_path(g, q)) by {
            assert forall|j: int| 0 <= j < q.len() - 1 implies g.edge_spec(
                #[trigger] q[j],
                q[j + 1],
            ) by {
                assert(q[j] == p[j + 1] && q[j + 1] == p[j + 2]);
            }
        }
        lemma_path_reach(g, q);
        assert(g.reach(p[1], p[0], (p.len() - 2) as nat)) by {
            assert(q[0] == p[1] && q[q.len() - 1] == p[p.len() - 1]);
        }
        assert(g.edge_spec(p[0], p[1]) && g.reachable(p[1], p[0]));
        assert(false);
    }
}

/// Self-loop rejection: for any existing node `x` the cycle check of
/// `add_edge(x, x, _)` finds `x` reachable from itself and no such edge
/// present, so by `add_edge`'s contract the call fails with
/// `CycleDetected`.
pub proof fn lemma_self_loop_rejected<N, E>(g: Dag<N, E>, x: NodeId)
    requires
        g.wf(),
        g.node_alive(x),
    ensures
        g.reachable(x, x),
        !g.edge_spec(x, x),
{
    assert(g.reach(x, x, 0));
    if g.edge_spec(x, x) {
        assert(!g.reachable(x, x));
    }
}

/// Duplicate rejection: a present edge has existing endpoints, so by
/// `add_edge`'s contract a second insertion of the same `(from, to)` fails
/// with `EdgeAlreadyExists` and, failing, leaves the graph — including the
/// first edge's payload — unchanged.
pub proof fn lemma_duplicate_rejected<N, E>(g: Dag<N, E>, from: NodeId, to: NodeId)
    requires
        g.wf(),
        g.edge_spec(from, to),
    ensures
        g.node_alive(from),
        g.node_alive(to),
{
}

/// The predecessors of any node form a finite set.
pub proof fn lemma_pred_finite<N, E>(g: Dag<N, E>, b: NodeId)
    requires
        g.wf(),
    ensures
        g.pred_of(b).finite(),
{
    if g.node_alive(b) {
        g.lemma_inn_is_preds(b);
        vstd::seq_lib::seq_to_set_is_finite(g.nodes@[b as int].inn@);
    } else {
        assert(g.pred_of(b) =~= Set::<NodeId>::empty());
    }
}

/// The successors of any node form a finite set.
pub proof fn lemma_succ_finite<N, E>(g: Dag<N, E>, a: NodeId)
    requires
        g.wf(),
    ensures
        g.succ_of(a).finite(),
{
    if g.node_alive(a) {
        g.lemma_out_is_succs(a);
        vstd::seq_lib::seq_to_set_is_finite(g.nodes@[a as int].out@);
    } else {
        assert(g.succ_of(a) =~= Set::<NodeId>::empty());
    }
}

/// Cascade on node removal: when `g2` is `g1` with node `x` and its
/// incident edges removed — the relation `remove_node` ensures — every
/// edge touching `x` is gone, and each neighbour's degree drops by exactly
/// the edges it shared with `x`.
pub proof fn lemma_remove_node_cascades<N, E>(g1: Dag<N, E>, g2: Dag<N, E>, x: NodeId, b: NodeId)
    requires
        g1.wf(),
        g2.wf(),
        forall|a: NodeId, c: NodeId|
            #[trigger] g2.edge_spec(a, c) == (g1.edge_spec(a, c) && a != x && c != x),
        b != x,
    ensures
        !g2.edge_spec(x, b),
        !g2.edge_spec(b, x),
        g1.edge_spec(x, b) ==> g2.in_degree_spec(b) + 1 == g1.in_degree_spec(b),
        !g1.edge_spec(x, b) ==> g2.in_degree_spec(b) == g1.in_degree_spec(b),
        g1.edge_spec(b, x) ==> g2.out_degree_spec(b) + 1 == g1.out_degree_spec(b),
        !g1.edge_spec(b, x) ==> g2.out_degree_spec(b) == g1.out_degree_spec(b),
{
    assert(g2.pred_of(b) =~= g1.pred_of(b).remove(x));
    assert(g2.succ_of(b) =~= g1.succ_of(b).remove(x));
    lemma_pred_finite(g1, b);
    lemma_succ_finite(g1, b);
    vstd::set::axiom_set_remove_len(g1.pred_of(b), x);
    vstd::set::axiom_set_remove_len(g1.succ_of(b), x);
}

/// Id reuse (stack order): removing node `k` pushes `k` on top of the free
/// list — the relation `remove_node` ensures — so the list is non-empty
/// with `k` on top, and by `add_node`'s contract the next `add_node`
/// returns exactly `k`.
pub proof fn lemma_freed_id_reused_first(fl: Seq<NodeId>, k: NodeId)
    ensures
        fl.push(k).len() > 0,
        fl.push(k).last() == k,
{
}

/// Round-trip consistency: one edge relation underlies the three views —
/// `has_edge(a, b)` is true iff `b` is a successor of `a` iff `a` is a
/// predecessor of `b`.
pub proof fn lemma_edge_round_trip<N, E>(g: Dag<N, E>, a: NodeId, b: NodeId)
    requires
        g.wf(),
    ensures
        g.edge_spec(a, b) == g.succ_of(a).contains(b),
        g.edge_spec(a, b) == g.pred_of(b).contains(a),
{
}

} // verus!
