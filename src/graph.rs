//! The automaton as a reversed graph: an edge runs from a transition's
//! destination back to its source, so that a walk from the accept state
//! along edges retraces the automaton backwards.
use vstd::prelude::*;
use vstd::seq_lib::*;
use crate::automaton::{Automaton, AutomatonState, Transition};

verus! {

/// A reversed transition: from the forward destination `from` to the
/// forward source `to`, with the bytes that trigger it.
#[derive(Debug, Clone)]
pub struct RevEdge {
    pub from: usize,
    pub to: usize,
    pub label: Vec<u8>,
}

/// The reversed graph. Node `k` exists for `k < last_allocated.len()`, and
/// `last_allocated[k]` says whether `k` was the highest node of the batch that
/// introduced it. Edge `e` is `edges[e]`; `removed[e]` says it has been taken
/// out, `pending[e]` that it is marked for removal as a cycle-closing edge.
#[derive(Debug, Clone)]
pub struct AutomatonGraph {
    pub last_allocated: Vec<bool>,
    pub edges: Vec<RevEdge>,
    pub removed: Vec<bool>,
    pub pending: Vec<bool>,
}

pub open spec fn edge_view(e: RevEdge) -> (usize, usize, Seq<u8>) {
    (e.from, e.to, e.label@)
}

impl AutomatonGraph {
    pub open spec fn node_count(&self) -> nat {
        self.last_allocated@.len()
    }

    pub open spec fn edge_views(&self) -> Seq<(usize, usize, Seq<u8>)> {
        self.edges@.map_values(|e: RevEdge| edge_view(e))
    }

    pub open spec fn wf(&self) -> bool {
        &&& self.removed@.len() == self.edges@.len()
        &&& self.pending@.len() == self.edges@.len()
        &&& forall|e: int| 0 <= e < self.edges@.len() ==> {
            &&& (#[trigger] self.edges@[e]).from < self.node_count()
            &&& self.edges@[e].to < self.node_count()
        }
    }

    /// Every edge carries at least one byte.
    pub open spec fn well_labeled(&self) -> bool {
        forall|e: int| 0 <= e < self.edges@.len() ==> (#[trigger] self.edges@[e]).label@.len() > 0
    }

    /// Edge `e` is present (not removed) and runs from `a` to `b`.
    pub open spec fn live_edge(&self, e: int, a: int, b: int) -> bool {
        &&& 0 <= e < self.edges@.len()
        &&& !self.removed@[e]
        &&& self.edges@[e].from == a
        &&& self.edges@[e].to == b
    }

    /// Some present edge runs from `a` to `b`.
    pub open spec fn has_live_edge(&self, a: int, b: int) -> bool {
        exists|e: int| #[trigger] self.live_edge(e, a, b)
    }

    /// An empty graph.
    pub fn new() -> (g: AutomatonGraph)
        ensures
            g.wf(),
            g.well_labeled(),
            g.node_count() == 0,
            g.edges@.len() == 0,
    {
        AutomatonGraph { last_allocated: Vec::new(), edges: Vec::new(), removed: Vec::new(), pending: Vec::new() }
    }

    /// The first present edge from `a` to `b`.
    pub fn find_edge(&self, a: usize, b: usize) -> (r: Option<usize>)
        requires
            self.wf(),
        ensures
            match r {
                Some(e) => self.live_edge(e as int, a as int, b as int)
                    && forall|e2: int| 0 <= e2 < e ==> !#[trigger] self.live_edge(e2, a as int, b as int),
                None => !self.has_live_edge(a as int, b as int),
            },
    {
        let mut e: usize = 0;
        while e < self.edges.len()
            invariant
                self.wf(),
                e <= self.edges@.len(),
                forall|e2: int| 0 <= e2 < e ==> !#[trigger] self.live_edge(e2, a as int, b as int),
            decreases self.edges.len() - e,
        {
            if !self.removed[e] && self.edges[e].from == a && self.edges[e].to == b {
                return Some(e);
            }
            e += 1;
        }
        None
    }
}

/// The first node that a batch with watermark `last` introduces.
pub open spec fn first_new_state(last: Option<usize>) -> int {
    match last {
        Some(v) => v + 1,
        None => 0,
    }
}

/// The markers of the nodes that a batch from `last` up to `next` introduces.
pub open spec fn new_markers(last: Option<usize>, next: usize) -> Seq<bool> {
    let first = first_new_state(last);
    if first <= next {
        Seq::new((next + 1 - first) as nat, |k: int| first + k == next)
    } else {
        seq![]
    }
}

/// Whether the transition `t` of state `i` becomes an edge of a batch with
/// watermark `last` in a graph of `n` nodes: both ends exist and not both
/// were already present before the watermark.
pub open spec fn batch_keeps(i: int, t: Transition, last: Option<usize>, n: nat) -> bool {
    &&& i < n
    &&& t.next < n
    &&& !(last is Some && i <= last->0 && t.next <= last->0)
}

/// The reversed edges that a batch adds for the transitions `ts` of state `i`.
pub open spec fn transition_edges(i: int, ts: Seq<Transition>, last: Option<usize>, n: nat) -> Seq<(usize, usize, Seq<u8>)>
    decreases ts.len(),
{
    if ts.len() == 0 {
        seq![]
    } else {
        let t = ts.last();
        let rest = transition_edges(i, ts.drop_last(), last, n);
        if batch_keeps(i, t, last, n) {
            rest.push((t.next, i as usize, t.label@))
        } else {
            rest
        }
    }
}

/// The reversed edges that a batch adds for all of `states`, in order.
pub open spec fn batch_edges(states: Seq<AutomatonState>, last: Option<usize>, n: nat) -> Seq<(usize, usize, Seq<u8>)>
    decreases states.len(),
{
    if states.len() == 0 {
        seq![]
    } else {
        batch_edges(states.drop_last(), last, n) + transition_edges(states.len() - 1, states.last().transitions@, last, n)
    }
}

/// `new` is `old` grown by the batch of `dfa` from watermark `last` up to `next`.
pub open spec fn grows(old: AutomatonGraph, dfa: Automaton, last: Option<usize>, next: usize, new: AutomatonGraph) -> bool {
    let added = (new.edges@.len() - old.edges@.len()) as nat;
    &&& new.last_allocated@ == old.last_allocated@ + new_markers(last, next)
    &&& new.edge_views() == old.edge_views() + batch_edges(dfa.states@, last, new.node_count())
    &&& new.removed@ == old.removed@ + Seq::new(added, |k: int| false)
    &&& new.pending@ == old.pending@ + Seq::new(added, |k: int| false)
}

/// Adds the nodes from after `last_max_state` up to `next_max_state`, and a
/// reversed edge for every transition whose ends both exist and were not
/// both present before the watermark.
pub fn add_graph_nodes(dfa: &Automaton, graph: &mut AutomatonGraph, last_max_state: Option<usize>, next_max_state: usize)
    requires
        old(graph).wf(),
        next_max_state < usize::MAX,
    ensures
        final(graph).wf(),
        old(graph).well_labeled() && dfa.well_labeled() ==> final(graph).well_labeled(),
        grows(*old(graph), *dfa, last_max_state, next_max_state, *final(graph)),
{
    let first: usize = match last_max_state {
        Some(v) => if v >= next_max_state { next_max_state + 1 } else { v + 1 },
        None => 0,
    };
    let ghost old_markers = graph.last_allocated@;
    let mut idx: usize = first;
    while idx <= next_max_state
        invariant
            first <= idx <= next_max_state + 1,
            next_max_state < usize::MAX,
            graph.edges == old(graph).edges,
            graph.removed == old(graph).removed,
            graph.pending == old(graph).pending,
            graph.last_allocated@ == old_markers + Seq::new((idx - first) as nat, |k: int| first + k == next_max_state),
        decreases next_max_state + 1 - idx,
    {
        graph.last_allocated.push(idx == next_max_state);
        proof {
            assert(graph.last_allocated@ =~= old_markers + Seq::new((idx + 1 - first) as nat, |k: int| first + k == next_max_state));
        }
        idx += 1;
    }
    proof {
        assert(graph.last_allocated@ =~= old_markers + new_markers(last_max_state, next_max_state));
    }
    let n = graph.last_allocated.len();
    let ghost old_views = old(graph).edge_views();
    let ghost old_len = old(graph).edges@.len();
    let mut i: usize = 0;
    while i < dfa.states.len()
        invariant
            i <= dfa.states@.len(),
            n == graph.node_count(),
            graph.last_allocated@ == old_markers + new_markers(last_max_state, next_max_state),
            graph.wf(),
            old(graph).well_labeled() && dfa.well_labeled() ==> graph.well_labeled(),
            old_len <= graph.edges@.len(),
            graph.edge_views() == old_views + batch_edges(dfa.states@.subrange(0, i as int), last_max_state, n as nat),
            graph.removed@ == old(graph).removed@ + Seq::new((graph.edges@.len() - old_len) as nat, |k: int| false),
            graph.pending@ == old(graph).pending@ + Seq::new((graph.edges@.len() - old_len) as nat, |k: int| false),
        decreases dfa.states.len() - i,
    {
        let ts = &dfa.states[i].transitions;
        let ghost before = graph.edge_views();
        let mut j: usize = 0;
        while j < ts.len()
            invariant
                j <= ts@.len(),
                i < dfa.states@.len(),
                ts == &dfa.states@[i as int].transitions,
                n == graph.node_count(),
                graph.last_allocated@ == old_markers + new_markers(last_max_state, next_max_state),
                graph.wf(),
                old(graph).well_labeled() && dfa.well_labeled() ==> graph.well_labeled(),
                old_len <= graph.edges@.len(),
                graph.edge_views() == before + transition_edges(i as int, ts@.subrange(0, j as int), last_max_state, n as nat),
                graph.removed@ == old(graph).removed@ + Seq::new((graph.edges@.len() - old_len) as nat, |k: int| false),
                graph.pending@ == old(graph).pending@ + Seq::new((graph.edges@.len() - old_len) as nat, |k: int| false),
            decreases ts.len() - j,
        {
            let t = &ts[j];
            let ghost pre = graph.edge_views();
            assert(ts@.subrange(0, j + 1).drop_last() =~= ts@.subrange(0, j as int));
            let skip = match last_max_state {
                Some(max) => i <= max && t.next <= max,
                None => false,
            };
            if !skip && i < n && t.next < n {
                let label = t.label.clone();
                assert(label@ =~= t.label@);
                graph.edges.push(RevEdge { from: t.next, to: i, label });
                graph.removed.push(false);
                graph.pending.push(false);
                proof {
                    assert(graph.edge_views() =~= pre.push((t.next, i, t.label@)));
                    assert(graph.removed@ =~= old(graph).removed@ + Seq::new((graph.edges@.len() - old_len) as nat, |k: int| false));
                    assert(graph.pending@ =~= old(graph).pending@ + Seq::new((graph.edges@.len() - old_len) as nat, |k: int| false));
                    assert forall|e: int| 0 <= e < graph.edges@.len() implies {
                        &&& (#[trigger] graph.edges@[e]).from < graph.node_count()
                        &&& graph.edges@[e].to < graph.node_count()
                    } by {
                    }
                }
            }
            j += 1;
        }
        proof {
            assert(ts@.subrange(0, j as int) =~= ts@);
            let p = dfa.states@.subrange(0, i + 1);
            assert(p.drop_last() =~= dfa.states@.subrange(0, i as int));
            assert(graph.edge_views() =~= old_views + batch_edges(p, last_max_state, n as nat));
        }
        i += 1;
    }
    assert(dfa.states@.subrange(0, i as int) =~= dfa.states@);
}

proof fn lemma_transition_edges_split(i: int, ts: Seq<Transition>, a: usize, b: usize)
    requires
        a < b,
    ensures
        transition_edges(i, ts, None, (a + 1) as nat).to_multiset().add(
            transition_edges(i, ts, Some(a), (b + 1) as nat).to_multiset())
            == transition_edges(i, ts, None, (b + 1) as nat).to_multiset(),
    decreases ts.len(),
{
    broadcast use vstd::multiset::group_multiset_axioms, to_multiset_build, group_to_multiset_ensures;
    if ts.len() > 0 {
        lemma_transition_edges_split(i, ts.drop_last(), a, b);
        let x = (ts.last().next, i as usize, ts.last().label@);
        let r1 = transition_edges(i, ts.drop_last(), None, (a + 1) as nat);
        let r2 = transition_edges(i, ts.drop_last(), Some(a), (b + 1) as nat);
        let r3 = transition_edges(i, ts.drop_last(), None, (b + 1) as nat);
        assert(r1.push(x).to_multiset() =~= r1.to_multiset().insert(x));
        assert(r2.push(x).to_multiset() =~= r2.to_multiset().insert(x));
        assert(r3.push(x).to_multiset() =~= r3.to_multiset().insert(x));
        assert(transition_edges(i, ts, None, (a + 1) as nat).to_multiset().add(
            transition_edges(i, ts, Some(a), (b + 1) as nat).to_multiset())
            =~= transition_edges(i, ts, None, (b + 1) as nat).to_multiset());
    } else {
        assert(transition_edges(i, ts, None, (a + 1) as nat).to_multiset().add(
            transition_edges(i, ts, Some(a), (b + 1) as nat).to_multiset())
            =~= transition_edges(i, ts, None, (b + 1) as nat).to_multiset());
    }
}

proof fn lemma_batch_edges_split(states: Seq<AutomatonState>, a: usize, b: usize)
    requires
        a < b,
    ensures
        batch_edges(states, None, (a + 1) as nat).to_multiset().add(
            batch_edges(states, Some(a), (b + 1) as nat).to_multiset())
            == batch_edges(states, None, (b + 1) as nat).to_multiset(),
    decreases states.len(),
{
    broadcast use vstd::multiset::group_multiset_axioms, lemma_multiset_commutative, group_to_multiset_ensures;
    if states.len() > 0 {
        let rest = states.drop_last();
        let i = states.len() - 1;
        let ts = states.last().transitions@;
        lemma_batch_edges_split(rest, a, b);
        lemma_transition_edges_split(i, ts, a, b);
        lemma_multiset_commutative(batch_edges(rest, None, (a + 1) as nat), transition_edges(i, ts, None, (a + 1) as nat));
        lemma_multiset_commutative(batch_edges(rest, Some(a), (b + 1) as nat), transition_edges(i, ts, Some(a), (b + 1) as nat));
        lemma_multiset_commutative(batch_edges(rest, None, (b + 1) as nat), transition_edges(i, ts, None, (b + 1) as nat));
        assert(batch_edges(states, None, (a + 1) as nat).to_multiset().add(
            batch_edges(states, Some(a), (b + 1) as nat).to_multiset())
            =~= batch_edges(states, None, (b + 1) as nat).to_multiset());
    } else {
        assert(batch_edges(states, None, (a + 1) as nat).to_multiset().add(
            batch_edges(states, Some(a), (b + 1) as nat).to_multiset())
            =~= batch_edges(states, None, (b + 1) as nat).to_multiset());
    }
}

/// Growing an empty graph in two batches, first up to `a` and then from
/// watermark `a` up to `b`, gives the same nodes and the same edges (as a
/// multiset) as growing it once up to `b`.
pub proof fn lemma_incremental_growth(
    dfa: Automaton,
    a: usize,
    b: usize,
    g0: AutomatonGraph,
    g1: AutomatonGraph,
    g2: AutomatonGraph,
    g3: AutomatonGraph,
)
    requires
        a < b,
        g0.node_count() == 0,
        g0.edges@.len() == 0,
        grows(g0, dfa, None, a, g1),
        grows(g1, dfa, Some(a), b, g2),
        grows(g0, dfa, None, b, g3),
    ensures
        g2.node_count() == g3.node_count(),
        g2.edge_views().to_multiset() == g3.edge_views().to_multiset(),
{
    broadcast use vstd::multiset::group_multiset_axioms, lemma_multiset_commutative, group_to_multiset_ensures;
    assert(g1.node_count() == a + 1);
    assert(g2.node_count() == b + 1);
    assert(g3.node_count() == b + 1);
    assert(g0.edge_views() =~= seq![]);
    lemma_batch_edges_split(dfa.states@, a, b);
    let e1 = batch_edges(dfa.states@, None, (a + 1) as nat);
    let e2 = batch_edges(dfa.states@, Some(a), (b + 1) as nat);
    assert(g1.edge_views() =~= e1);
    assert(g2.edge_views() =~= e1 + e2);
    assert(g3.edge_views() =~= batch_edges(dfa.states@, None, (b + 1) as nat));
    lemma_multiset_commutative(e1, e2);
}

/// Growing an empty graph first from `d_small` up to `a` and then from the
/// grown description `d_large` from watermark `a` up to `b` gives the same
/// nodes and the same edges (as a multiset) as growing it once from
/// `d_large` up to `b`, where the two descriptions give the same
/// transitions among the states up to `a`.
pub proof fn lemma_incremental_growth_grown(
    d_small: Automaton,
    d_large: Automaton,
    a: usize,
    b: usize,
    g0: AutomatonGraph,
    g1: AutomatonGraph,
    g2: AutomatonGraph,
    g3: AutomatonGraph,
)
    requires
        a < b,
        batch_edges(d_small.states@, None, (a + 1) as nat).to_multiset()
            == batch_edges(d_large.states@, None, (a + 1) as nat).to_multiset(),
        g0.node_count() == 0,
        g0.edges@.len() == 0,
        grows(g0, d_small, None, a, g1),
        grows(g1, d_large, Some(a), b, g2),
        grows(g0, d_large, None, b, g3),
    ensures
        g2.node_count() == g3.node_count(),
        g2.edge_views().to_multiset() == g3.edge_views().to_multiset(),
{
    broadcast use vstd::multiset::group_multiset_axioms, lemma_multiset_commutative, group_to_multiset_ensures;
    assert(g1.node_count() == a + 1);
    assert(g2.node_count() == b + 1);
    assert(g3.node_count() == b + 1);
    assert(g0.edge_views() =~= seq![]);
    lemma_batch_edges_split(d_large.states@, a, b);
    let e0 = batch_edges(d_small.states@, None, (a + 1) as nat);
    let e1 = batch_edges(d_large.states@, None, (a + 1) as nat);
    let e2 = batch_edges(d_large.states@, Some(a), (b + 1) as nat);
    assert(g1.edge_views() =~= e0);
    assert(g2.edge_views() =~= e0 + e2);
    assert(g3.edge_views() =~= batch_edges(d_large.states@, None, (b + 1) as nat));
    lemma_multiset_commutative(e0, e2);
    lemma_multiset_commutative(e1, e2);
}

proof fn lemma_transition_edge_iff(i: int, ts: Seq<Transition>, n: nat, x: (usize, usize, Seq<u8>))
    requires
        0 <= i,
    ensures
        transition_edges(i, ts, None, n).contains(x) <==> (0 <= i < n && exists|j: int| 0 <= j < ts.len()
            && (#[trigger] ts[j]).next < n && x == (ts[j].next, i as usize, ts[j].label@)),
    decreases ts.len(),
{
    if ts.len() > 0 {
        let rest = ts.drop_last();
        lemma_transition_edge_iff(i, rest, n, x);
        let t = ts.last();
        if transition_edges(i, ts, None, n).contains(x) {
            if transition_edges(i, rest, None, n).contains(x) {
                let j = choose|j: int| 0 <= j < rest.len() && (#[trigger] rest[j]).next < n && x == (rest[j].next, i as usize, rest[j].label@);
                assert(ts[j] == rest[j]);
            } else {
                assert(batch_keeps(i, t, None, n));
                let r2 = transition_edges(i, rest, None, n);
                let pushed = r2.push((t.next, i as usize, t.label@));
                assert(pushed.contains(x));
                let k = choose|k: int| 0 <= k < pushed.len() && #[trigger] pushed[k] == x;
                if k < r2.len() {
                    assert(r2[k] == x);
                    assert(r2.contains(x));
                }
                assert(ts[ts.len() - 1] == t);
            }
        }
        if 0 <= i < n && exists|j: int| 0 <= j < ts.len() && (#[trigger] ts[j]).next < n && x == (ts[j].next, i as usize, ts[j].label@) {
            let j = choose|j: int| 0 <= j < ts.len() && (#[trigger] ts[j]).next < n && x == (ts[j].next, i as usize, ts[j].label@);
            let r2 = transition_edges(i, rest, None, n);
            if j < ts.len() - 1 {
                assert(rest[j] == ts[j]);
                assert(r2.contains(x));
                let k = choose|k: int| 0 <= k < r2.len() && #[trigger] r2[k] == x;
                if batch_keeps(i, t, None, n) {
                    assert(r2.push((t.next, i as usize, t.label@))[k] == x);
                }
            } else {
                assert(r2.push((t.next, i as usize, t.label@))[r2.len() as int] == x);
            }
        }
    }
}

/// The edges that a first batch of a graph of `n` nodes adds are exactly the
/// transitions whose two states are nodes, reversed.
pub proof fn lemma_batch_edge_iff(states: Seq<AutomatonState>, n: nat, x: (usize, usize, Seq<u8>))
    ensures
        batch_edges(states, None, n).contains(x) <==> exists|i: int, j: int| 0 <= i < states.len() && i < n
            && 0 <= j < states[i].transitions@.len() && (#[trigger] states[i].transitions@[j]).next < n
            && x == (states[i].transitions@[j].next, i as usize, states[i].transitions@[j].label@),
    decreases states.len(),
{
    broadcast use lemma_seq_concat_contains_all_elements, lemma_seq_contains_after_push;
    if states.len() > 0 {
        let rest = states.drop_last();
        let i0 = states.len() - 1;
        let ts = states.last().transitions@;
        lemma_batch_edge_iff(rest, n, x);
        lemma_transition_edge_iff(i0, ts, n, x);
        let a = batch_edges(rest, None, n);
        let b = transition_edges(i0, ts, None, n);
        assert(batch_edges(states, None, n) == a + b);
        if (a + b).contains(x) {
            let k = choose|k: int| 0 <= k < (a + b).len() && #[trigger] (a + b)[k] == x;
            if k < a.len() {
                assert(a.contains(x));
                let (i, j) = choose|i: int, j: int| 0 <= i < rest.len() && i < n
                    && 0 <= j < rest[i].transitions@.len() && (#[trigger] rest[i].transitions@[j]).next < n
                    && x == (rest[i].transitions@[j].next, i as usize, rest[i].transitions@[j].label@);
                assert(states[i] == rest[i]);
            } else {
                assert(b[k - a.len()] == x);
                assert(b.contains(x));
                let j = choose|j: int| 0 <= j < ts.len() && (#[trigger] ts[j]).next < n && x == (ts[j].next, i0 as usize, ts[j].label@);
                assert(states[i0].transitions@[j] == ts[j]);
            }
        }
        if exists|i: int, j: int| 0 <= i < states.len() && i < n
            && 0 <= j < states[i].transitions@.len() && (#[trigger] states[i].transitions@[j]).next < n
            && x == (states[i].transitions@[j].next, i as usize, states[i].transitions@[j].label@) {
            let (i, j) = choose|i: int, j: int| 0 <= i < states.len() && i < n
                && 0 <= j < states[i].transitions@.len() && (#[trigger] states[i].transitions@[j]).next < n
                && x == (states[i].transitions@[j].next, i as usize, states[i].transitions@[j].label@);
            if i < i0 {
                assert(rest[i] == states[i]);
                assert(rest[i].transitions@[j].next < n);
                assert(a.contains(x));
                let k = choose|k: int| 0 <= k < a.len() && #[trigger] a[k] == x;
                assert((a + b)[k] == x);
            } else {
                assert(ts[j].next < n);
                assert(b.contains(x));
                let k = choose|k: int| 0 <= k < b.len() && #[trigger] b[k] == x;
                assert((a + b)[a.len() + k] == x);
            }
        }
    }
}

} // verus!
