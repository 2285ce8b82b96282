//! Cycle elimination: every elementary cycle of two or more nodes gets its
//! closing edge marked for removal; the backward search removes a marked
//! edge only when it meets it. Self-loops are left to the search.
use vstd::prelude::*;
use graph_cycles::Cycles;
use crate::graph::AutomatonGraph;

verus! {

/// The elementary cycles that `graph_cycles` enumerates in the directed
/// graph with these edges (node lists in its own traversal order).
pub uninterp spec fn elementary_cycles(edges: Seq<(usize, usize)>) -> Seq<Seq<usize>>;

/// Relies on `graph_cycles::Cycles::cycles` (Johnson's algorithm) run on the
/// petgraph graph that `Graph::from_edges` builds from the edge list.
#[verifier::external_body]
fn find_cycles(edges: &Vec<(usize, usize)>) -> (r: Vec<Vec<usize>>)
    ensures
        r@.map_values(|c: Vec<usize>| c@) == elementary_cycles(edges@),
{
    let g = petgraph::Graph::<(), (), petgraph::Directed, usize>::from_edges(edges.iter().copied());
    g.cycles().into_iter().map(|c| c.into_iter().map(|n| n.index()).collect()).collect()
}

/// The ends of every edge of `g`, in edge order.
pub open spec fn edge_pairs(g: AutomatonGraph) -> Seq<(usize, usize)> {
    g.edges@.map_values(|e: crate::graph::RevEdge| (e.from, e.to))
}

/// `e` is the first present edge of `g` from `a` to `b`.
pub open spec fn first_live_edge(g: AutomatonGraph, e: int, a: int, b: int) -> bool {
    g.live_edge(e, a, b) && forall|e2: int| 0 <= e2 < e ==> !#[trigger] g.live_edge(e2, a, b)
}

/// `e` closes one of the cycles `cs` that has two or more nodes: it is the
/// first present edge from the cycle's last node back to its first.
pub open spec fn closes_cycle(g: AutomatonGraph, cs: Seq<Seq<usize>>, e: int) -> bool {
    exists|k: int| 0 <= k < cs.len() && (#[trigger] cs[k]).len() >= 2
        && first_live_edge(g, e, cs[k].last() as int, cs[k][0] as int)
}

/// `new` is `old` with the closing edge of every elementary cycle of two or
/// more nodes marked for removal.
pub open spec fn cycles_marked(old: AutomatonGraph, new: AutomatonGraph) -> bool {
    &&& new.last_allocated == old.last_allocated
    &&& new.edges == old.edges
    &&& new.removed == old.removed
    &&& new.pending@.len() == old.pending@.len()
    &&& forall|e: int| 0 <= e < old.edges@.len() ==> (#[trigger] new.pending@[e] <==> (
        old.pending@[e] || closes_cycle(old, elementary_cycles(edge_pairs(old)), e)))
}

/// Marks for removal the closing edge of every elementary cycle of two or
/// more nodes.
pub fn mark_cycle_edges(graph: &mut AutomatonGraph)
    requires
        old(graph).wf(),
    ensures
        final(graph).wf(),
        cycles_marked(*old(graph), *final(graph)),
{
    let mut pairs: Vec<(usize, usize)> = Vec::new();
    let mut e: usize = 0;
    while e < graph.edges.len()
        invariant
            e <= graph.edges@.len(),
            pairs@ == graph.edges@.subrange(0, e as int).map_values(|x: crate::graph::RevEdge| (x.from, x.to)),
        decreases graph.edges.len() - e,
    {
        pairs.push((graph.edges[e].from, graph.edges[e].to));
        proof {
            assert(pairs@ =~= graph.edges@.subrange(0, e + 1).map_values(|x: crate::graph::RevEdge| (x.from, x.to)));
        }
        e += 1;
    }
    assert(graph.edges@.subrange(0, e as int) =~= graph.edges@);
    let cycles = find_cycles(&pairs);
    let ghost cs = elementary_cycles(edge_pairs(*old(graph)));
    let ghost g0 = *old(graph);
    let mut k: usize = 0;
    while k < cycles.len()
        invariant
            k <= cycles@.len(),
            cs == cycles@.map_values(|c: Vec<usize>| c@),
            graph.wf(),
            g0.wf(),
            graph.last_allocated == g0.last_allocated,
            graph.edges == g0.edges,
            graph.removed == g0.removed,
            graph.pending@.len() == g0.pending@.len(),
            forall|x: int| 0 <= x < g0.edges@.len() ==> (#[trigger] graph.pending@[x] <==> (
                g0.pending@[x] || closes_cycle(g0, cs.subrange(0, k as int), x))),
        decreases cycles.len() - k,
    {
        let c = &cycles[k];
        let ghost before = graph.pending@;
        let ghost gb = *graph;
        let found = if c.len() >= 2 {
            graph.find_edge(c[c.len() - 1], c[0])
        } else {
            None
        };
        if let Some(x) = found {
            graph.pending.set(x, true);
        }
        assert(found is Some ==> graph.pending@ == before.update(found->0 as int, true));
        assert(found is None ==> graph.pending@ == before);
        proof {
            assert(cs[k as int] == c@);
            assert(gb.edges == g0.edges && gb.removed == g0.removed);
            assert forall|x: int| 0 <= x < g0.edges@.len() implies (#[trigger] graph.pending@[x] <==> (
                g0.pending@[x] || closes_cycle(g0, cs.subrange(0, k + 1), x))) by {
                lemma_closes_cycle_step(g0, cs, k as int, x);
                assert(before[x] <==> (g0.pending@[x] || closes_cycle(g0, cs.subrange(0, k as int), x)));
                if c@.len() >= 2 {
                    let a = c@.last() as int;
                    let b = c@[0] as int;
                    match found {
                        Some(x0) => {
                            assert(gb.live_edge(x0 as int, a, b));
                            assert(g0.live_edge(x0 as int, a, b));
                            if first_live_edge(g0, x, a, b) {
                                if x < x0 {
                                    assert(g0.live_edge(x, a, b));
                                    assert(gb.live_edge(x, a, b));
                                } else if x > x0 {
                                    assert(!g0.live_edge(x0 as int, a, b));
                                }
                            }
                            if x == x0 {
                                assert forall|e2: int| 0 <= e2 < x implies !#[trigger] g0.live_edge(e2, a, b) by {
                                    assert(!gb.live_edge(e2, a, b));
                                }
                            }
                        },
                        None => {
                            if first_live_edge(g0, x, a, b) {
                                assert(gb.live_edge(x, a, b));
                            }
                        },
                    }
                }
            }
        }
        k += 1;
    }
    assert(cs.subrange(0, k as int) =~= cs);
}

proof fn lemma_closes_cycle_step(g: AutomatonGraph, cs: Seq<Seq<usize>>, k: int, x: int)
    requires
        0 <= k < cs.len(),
    ensures
        closes_cycle(g, cs.subrange(0, k + 1), x) <==> (closes_cycle(g, cs.subrange(0, k), x) || (
            cs[k].len() >= 2 && first_live_edge(g, x, cs[k].last() as int, cs[k][0] as int))),
{
    let sub = cs.subrange(0, k + 1);
    let pre = cs.subrange(0, k);
    if closes_cycle(g, sub, x) {
        let kk = choose|kk: int| 0 <= kk < sub.len() && (#[trigger] sub[kk]).len() >= 2
            && first_live_edge(g, x, sub[kk].last() as int, sub[kk][0] as int);
        if kk < k {
            assert(pre[kk] == sub[kk]);
        }
    }
    if closes_cycle(g, pre, x) {
        let kk = choose|kk: int| 0 <= kk < pre.len() && (#[trigger] pre[kk]).len() >= 2
            && first_live_edge(g, x, pre[kk].last() as int, pre[kk][0] as int);
        assert(sub[kk] == pre[kk]);
    }
    if cs[k].len() >= 2 && first_live_edge(g, x, cs[k].last() as int, cs[k][0] as int) {
        assert(sub[k] == cs[k]);
    }
}

} // verus!
