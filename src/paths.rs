//! Backward path enumeration: a depth-first search with an explicit stack
//! from the accept state to the start state over the reversed graph.
//! Self-loops met on the way are removed and their states recorded; an
//! edge marked as closing a cycle is removed when the search walks the
//! opposite edge of the same pair of states for the first time.
use vstd::prelude::*;
use vstd::arithmetic::power::{pow, lemma_pow_positive};
use vstd::set_lib::{set_int_range, lemma_int_range, lemma_len_subset};
use crate::graph::AutomatonGraph;

verus! {

/// `p` is a path of the search in `g`: it starts at `accept`, ends at the
/// start state 0, repeats no state, and each step follows a present edge.
pub open spec fn search_path(g: AutomatonGraph, accept: usize, p: Seq<usize>) -> bool {
    &&& p.len() >= 2
    &&& p[0] == accept
    &&& p.last() == 0
    &&& p.no_duplicates()
    &&& forall|i: int| 0 <= i < p.len() - 1 ==> #[trigger] g.has_live_edge(p[i] as int, p[i + 1] as int)
}

/// `g` has a present self-loop at `n`.
pub open spec fn has_self_loop(g: AutomatonGraph, n: int) -> bool {
    g.has_live_edge(n, n)
}

/// The outcome of the search: the paths found, each from the accept state
/// to state 0, and the states whose self-loops were met.
#[derive(Debug, Clone)]
pub struct PathSearch {
    pub paths: Vec<Vec<usize>>,
    pub self_nodes: Vec<usize>,
}

pub open spec fn contains_path(ps: Seq<Vec<usize>>, q: Seq<usize>) -> bool {
    exists|k: int| 0 <= k < ps.len() && #[trigger] ps[k]@ == q
}

pub open spec fn is_prefix(p: Seq<usize>, q: Seq<usize>) -> bool {
    1 <= p.len() < q.len() && q.subrange(0, p.len() as int) == p
}

pub open spec fn prefix_on_stack(st: Seq<Vec<usize>>, q: Seq<usize>) -> bool {
    exists|k: int| 0 <= k < st.len() && is_prefix(#[trigger] st[k]@, q)
}

/// Edge `e` has been walked by the search, from `a` to `b`.
pub open spec fn walked(g: AutomatonGraph, pushed: Seq<bool>, e: int, a: int, b: int) -> bool {
    0 <= e < pushed.len() && pushed[e] && g.edges@[e].from == a && g.edges@[e].to == b
}

pub open spec fn walked_link(g: AutomatonGraph, pushed: Seq<bool>, a: int, b: int) -> bool {
    exists|e: int| #[trigger] walked(g, pushed, e, a, b)
}

/// The weight of a stack entry of `len` states in a graph of `n` nodes
/// whose nodes have fewer than `b` edges each.
pub open spec fn weight(len: nat, n: nat, b: nat) -> nat {
    pow(b as int, (n + 2 - len) as nat) as nat
}

pub open spec fn stack_weight(st: Seq<Vec<usize>>, n: nat, b: nat) -> nat
    decreases st.len(),
{
    if st.len() == 0 {
        0
    } else {
        stack_weight(st.drop_last(), n, b) + weight(st.last()@.len(), n, b)
    }
}

/// A path that repeats no state and whose states after the first are
/// nodes of a graph of `n` nodes has at most `n + 1` states.
proof fn lemma_simple_path_len(p: Seq<usize>, n: nat)
    requires
        p.len() >= 1,
        p.no_duplicates(),
        forall|i: int| 1 <= i < p.len() ==> #[trigger] p[i] < n,
    ensures
        p.len() <= n + 1,
{
    let s = p.drop_first().map_values(|x: usize| x as int);
    assert(s.no_duplicates()) by {
        assert forall|i: int, j: int| 0 <= i < s.len() && 0 <= j < s.len() && i != j implies s[i] != s[j] by {
            assert(p[i + 1] != p[j + 1]);
        }
    }
    s.unique_seq_to_set();
    lemma_int_range(0, n as int);
    assert(s.to_set().subset_of(set_int_range(0, n as int))) by {
        assert forall|x: int| s.to_set().contains(x) implies set_int_range(0, n as int).contains(x) by {
            let i = choose|i: int| 0 <= i < s.len() && s[i] == x;
            assert(p[i + 1] < n);
        }
    }
    lemma_len_subset(s.to_set(), set_int_range(0, n as int));
}

proof fn lemma_weight_step(len: nat, n: nat, b: nat)
    requires
        1 <= len <= n + 1,
        b >= 1,
    ensures
        weight(len, n, b) == b * weight(len + 1, n, b),
        weight(len + 1, n, b) > 0,
{
    let d = (n + 1 - len) as nat;
    assert((n + 2 - len) as nat == d + 1);
    assert((n + 2 - (len + 1)) as nat == d);
    assert(pow(b as int, d + 1) == b * pow(b as int, d)) by {
        reveal(pow);
    }
    lemma_pow_positive(b as int, d);
}

fn contains(v: &Vec<usize>, x: usize) -> (r: bool)
    ensures
        r == v@.contains(x),
{
    let mut i: usize = 0;
    while i < v.len()
        invariant
            i <= v@.len(),
            forall|k: int| 0 <= k < i ==> v@[k] != x,
        decreases v.len() - i,
    {
        if v[i] == x {
            return true;
        }
        i += 1;
    }
    false
}

/// `v` extended by `x`.
fn extended(v: &Vec<usize>, x: usize) -> (r: Vec<usize>)
    ensures
        r@ == v@.push(x),
{
    let mut r: Vec<usize> = Vec::new();
    let mut i: usize = 0;
    while i < v.len()
        invariant
            i <= v@.len(),
            r@ == v@.subrange(0, i as int),
        decreases v.len() - i,
    {
        r.push(v[i]);
        i += 1;
        assert(r@ =~= v@.subrange(0, i as int));
    }
    r.push(x);
    assert(r@ =~= v@.push(x));
    r
}

/// The states of `p` before index `k` have no present self-loop in `g`.
pub open spec fn cleared_upto(g: AutomatonGraph, p: Seq<usize>, k: int) -> bool {
    forall|j: int| 0 <= j < k ==> !#[trigger] has_self_loop(g, p[j] as int)
}

/// A partial path on the search stack: it starts at `accept`, repeats no
/// state, its later states are nodes other than 0, and each step was walked.
pub open spec fn entry_core(g: AutomatonGraph, pushed: Seq<bool>, accept: usize, n: nat, p: Seq<usize>) -> bool {
    &&& p.len() >= 1
    &&& p[0] == accept
    &&& p.no_duplicates()
    &&& forall|i: int| 1 <= i < p.len() ==> (#[trigger] p[i] < n && p[i] != 0)
    &&& forall|i: int| 0 <= i < p.len() - 1 ==> #[trigger] walked_link(g, pushed, p[i] as int, p[i + 1] as int)
}

pub open spec fn entry_ok(g: AutomatonGraph, pushed: Seq<bool>, accept: usize, n: nat, p: Seq<usize>) -> bool {
    entry_core(g, pushed, accept, n, p) && cleared_upto(g, p, p.len() - 1)
}

/// A found path: a partial path extended by a present edge to state 0.
pub open spec fn recorded_ok(g: AutomatonGraph, pushed: Seq<bool>, accept: usize, n: nat, p: Seq<usize>) -> bool {
    &&& p.len() >= 2
    &&& p.last() == 0
    &&& entry_core(g, pushed, accept, n, p.drop_last())
    &&& cleared_upto(g, p, p.len() - 1)
    &&& !p.drop_last().contains(0)
    &&& g.has_live_edge(p[p.len() - 2] as int, 0)
}

/// `g` evolved from `g0` by removing edges, each of them a self-loop or
/// marked as closing a cycle.
pub open spec fn evolves(g0: AutomatonGraph, g: AutomatonGraph) -> bool {
    &&& g.wf()
    &&& g.last_allocated == g0.last_allocated
    &&& g.edges == g0.edges
    &&& g.pending == g0.pending
    &&& g.removed@.len() == g0.removed@.len()
    &&& forall|e: int| 0 <= e < g0.removed@.len() && #[trigger] g0.removed@[e] ==> g.removed@[e]
    &&& forall|e: int| 0 <= e < g0.removed@.len() && !g0.removed@[e] && #[trigger] g.removed@[e] ==> (
        g0.edges@[e].from == g0.edges@[e].to || g0.pending@[e])
}

/// Every self-loop of `g0` that is gone from `g` belongs to a recorded state.
pub open spec fn self_loops_recorded(g0: AutomatonGraph, g: AutomatonGraph, self_nodes: Seq<usize>) -> bool {
    &&& forall|k: int| 0 <= k < self_nodes.len() ==> #[trigger] has_self_loop(g0, self_nodes[k] as int)
    &&& forall|e: int| 0 <= e < g0.edges@.len() && !g0.removed@[e] && #[trigger] g.removed@[e]
        && g0.edges@[e].from == g0.edges@[e].to ==> self_nodes.contains(g0.edges@[e].from)
}

/// Removing edges only shrinks what is present.
proof fn lemma_shrink(g1: AutomatonGraph, g2: AutomatonGraph)
    requires
        g1.removed@.len() == g1.edges@.len(),
        g2.edges == g1.edges,
        g2.removed@.len() == g1.removed@.len(),
        forall|e: int| 0 <= e < g1.removed@.len() && #[trigger] g1.removed@[e] ==> g2.removed@[e],
    ensures
        forall|e: int, a: int, b: int| #[trigger] g2.live_edge(e, a, b) ==> g1.live_edge(e, a, b),
        forall|a: int, b: int| #[trigger] g2.has_live_edge(a, b) ==> g1.has_live_edge(a, b),
        forall|acc: usize, q: Seq<usize>| #[trigger] search_path(g2, acc, q) ==> search_path(g1, acc, q),
        forall|p: Seq<usize>, k: int| #[trigger] cleared_upto(g1, p, k) ==> cleared_upto(g2, p, k),
{
    assert forall|a: int, b: int| #[trigger] g2.has_live_edge(a, b) implies g1.has_live_edge(a, b) by {
        let e = choose|e: int| #[trigger] g2.live_edge(e, a, b);
        assert(g1.live_edge(e, a, b));
    }
    assert forall|acc: usize, q: Seq<usize>| #[trigger] search_path(g2, acc, q) implies search_path(g1, acc, q) by {
        assert forall|i: int| 0 <= i < q.len() - 1 implies #[trigger] g1.has_live_edge(q[i] as int, q[i + 1] as int) by {
            assert(g2.has_live_edge(q[i] as int, q[i + 1] as int));
        }
    }
    assert forall|p: Seq<usize>, k: int| #[trigger] cleared_upto(g1, p, k) implies cleared_upto(g2, p, k) by {
        assert forall|j: int| 0 <= j < k implies !#[trigger] has_self_loop(g2, p[j] as int) by {
            assert(!has_self_loop(g1, p[j] as int));
        }
    }
}

/// Walking more edges keeps every walked step walked.
proof fn lemma_walked_grow(g1: AutomatonGraph, g2: AutomatonGraph, p1: Seq<bool>, p2: Seq<bool>)
    requires
        g2.edges == g1.edges,
        p1.len() == p2.len(),
        forall|e: int| 0 <= e < p1.len() && #[trigger] p1[e] ==> p2[e],
    ensures
        forall|a: int, b: int| #[trigger] walked_link(g1, p1, a, b) ==> walked_link(g2, p2, a, b),
        forall|acc: usize, n: nat, p: Seq<usize>| #[trigger] entry_core(g1, p1, acc, n, p) ==> entry_core(g2, p2, acc, n, p),
{
    assert forall|a: int, b: int| #[trigger] walked_link(g1, p1, a, b) implies walked_link(g2, p2, a, b) by {
        let e = choose|e: int| #[trigger] walked(g1, p1, e, a, b);
        assert(walked(g2, p2, e, a, b));
    }
    assert forall|acc: usize, n: nat, p: Seq<usize>| #[trigger] entry_core(g1, p1, acc, n, p) implies entry_core(g2, p2, acc, n, p) by {
        assert forall|i: int| 0 <= i < p.len() - 1 implies #[trigger] walked_link(g2, p2, p[i] as int, p[i + 1] as int) by {
            assert(walked_link(g1, p1, p[i] as int, p[i + 1] as int));
        }
    }
}

/// Removing edge `x` takes out exactly that edge.
proof fn lemma_remove_one(g1: AutomatonGraph, g2: AutomatonGraph, x: int)
    requires
        g1.wf(),
        0 <= x < g1.edges@.len(),
        g2.edges == g1.edges,
        g2.last_allocated == g1.last_allocated,
        g2.pending == g1.pending,
        g2.removed@ == g1.removed@.update(x, true),
    ensures
        g2.wf(),
        forall|e: int, a: int, b: int| #[trigger] g2.live_edge(e, a, b) <==> (g1.live_edge(e, a, b) && e != x),
        forall|a: int, b: int| g1.has_live_edge(a, b) && !(g1.edges@[x].from == a && g1.edges@[x].to == b)
            ==> #[trigger] g2.has_live_edge(a, b),
{
    assert forall|a: int, b: int| g1.has_live_edge(a, b) && !(g1.edges@[x].from == a && g1.edges@[x].to == b)
        implies #[trigger] g2.has_live_edge(a, b) by {
        let e = choose|e: int| #[trigger] g1.live_edge(e, a, b);
        assert(g2.live_edge(e, a, b));
    }
}

/// Enumerates, by a backward depth-first search from `accept`, every path
/// to state 0 that repeats no state. Self-loops met are removed and their
/// states recorded; a marked cycle-closing edge from `b` to `a` is removed
/// when the search first walks an edge from `a` to `b`, unless it was
/// walked itself.
#[verifier::rlimit(100)]
#[verifier::spinoff_prover]
pub fn find_paths(graph: &mut AutomatonGraph, accept: usize) -> (r: PathSearch)
    requires
        old(graph).wf(),
    ensures
        evolves(*old(graph), *final(graph)),
        forall|k: int| 0 <= k < r.paths@.len() ==> search_path(*final(graph), accept, #[trigger] r.paths@[k]@),
        forall|q: Seq<usize>| search_path(*final(graph), accept, q) ==> #[trigger] contains_path(r.paths@, q),
        forall|k: int| 0 <= k < r.self_nodes@.len() ==> #[trigger] has_self_loop(*old(graph), r.self_nodes@[k] as int),
        forall|k: int, j: int| 0 <= k < r.paths@.len() && 0 <= j < r.paths@[k]@.len() - 1
            && #[trigger] has_self_loop(*old(graph), r.paths@[k]@[j] as int)
            ==> r.self_nodes@.contains(r.paths@[k]@[j]),
{
    let ghost g0 = *old(graph);
    let ghost n = graph.node_count();
    let ghost b = (graph.edges@.len() + 1) as nat;
    let mut paths: Vec<Vec<usize>> = Vec::new();
    let mut self_nodes: Vec<usize> = Vec::new();
    let mut pushed: Vec<bool> = Vec::new();
    while pushed.len() < graph.edges.len()
        invariant
            pushed@.len() <= graph.edges@.len(),
            forall|e: int| 0 <= e < pushed@.len() ==> !#[trigger] pushed@[e],
        decreases graph.edges.len() - pushed.len(),
    {
        pushed.push(false);
    }
    let mut stack: Vec<Vec<usize>> = Vec::new();
    let mut first: Vec<usize> = Vec::new();
    first.push(accept);
    stack.push(first);
    proof {
        assert(stack@[0]@ == seq![accept]);
        assert forall|q: Seq<usize>| search_path(*graph, accept, q) implies
            contains_path(paths@, q) || prefix_on_stack(stack@, q) by {
            assert(q.subrange(0, 1) =~= seq![accept]);
            assert(is_prefix(stack@[0]@, q));
        }
        assert(stack_weight(stack@.drop_last(), n, b) == 0);
    }
    while stack.len() > 0
        invariant
            g0.wf(),
            evolves(g0, *graph),
            n == graph.node_count(),
            b == graph.edges@.len() + 1,
            pushed@.len() == graph.edges@.len(),
            forall|e: int| 0 <= e < pushed@.len() && #[trigger] pushed@[e] ==> !graph.removed@[e]
                && graph.edges@[e].from != graph.edges@[e].to,
            forall|k: int| 0 <= k < stack@.len() ==> entry_ok(*graph, pushed@, accept, n, #[trigger] stack@[k]@),
            forall|k: int| 0 <= k < stack@.len() ==> (#[trigger] stack@[k]@).len() <= n + 1,
            forall|k: int| 0 <= k < paths@.len() ==> recorded_ok(*graph, pushed@, accept, n, #[trigger] paths@[k]@),
            accept == 0 ==> paths@.len() == 0,
            forall|q: Seq<usize>| search_path(*graph, accept, q) ==> (#[trigger] contains_path(paths@, q)
                || prefix_on_stack(stack@, q)),
            self_loops_recorded(g0, *graph, self_nodes@),
        decreases stack_weight(stack@, n, b),
    {
        let ghost st0 = stack@;
        let path = stack.pop().unwrap();
        let ghost base = stack@;
        let ghost base_paths = paths@;
        assert(base =~= st0.drop_last());
        assert(path == st0.last());
        assert(entry_ok(*graph, pushed@, accept, n, path@));
        let node = path[path.len() - 1];
        let ghost wc = weight((path@.len() + 1) as nat, n, b);
        let ghost gp = *graph;
        proof {
            assert forall|q: Seq<usize>| search_path(*graph, accept, q) implies (#[trigger] contains_path(paths@, q)
                || prefix_on_stack(stack@, q) || (is_prefix(path@, q)
                && forall|x: int| 0 <= x < 0 ==> !#[trigger] graph.live_edge(x, node as int, q[path@.len() as int] as int))) by {
                if !contains_path(paths@, q) {
                    let k = choose|k: int| 0 <= k < st0.len() && is_prefix(#[trigger] st0[k]@, q);
                    if k < st0.len() - 1 {
                        assert(stack@[k] == st0[k]);
                    }
                }
            }
            assert(stack@.subrange(0, base.len() as int) =~= base);
            assert(paths@.subrange(0, base_paths.len() as int) =~= base_paths);
            assert(stack_weight(st0, n, b) == stack_weight(base, n, b) + weight(path@.len(), n, b));
        }
        let mut e: usize = 0;
        while e < graph.edges.len()
            invariant
                0 <= e <= graph.edges@.len(),
                g0.wf(),
                evolves(g0, *graph),
                evolves(gp, *graph),
                n == graph.node_count(),
                b == graph.edges@.len() + 1,
                path@.len() >= 1,
                path@.len() <= n + 1,
                node == path@.last(),
                wc == weight((path@.len() + 1) as nat, n, b),
                pushed@.len() == graph.edges@.len(),
                forall|x: int| 0 <= x < pushed@.len() && #[trigger] pushed@[x] ==> !graph.removed@[x]
                    && graph.edges@[x].from != graph.edges@[x].to,
                entry_ok(*graph, pushed@, accept, n, path@),
                stack@.len() >= base.len(),
                stack@.subrange(0, base.len() as int) == base,
                forall|k: int| 0 <= k < base.len() ==> entry_ok(*graph, pushed@, accept, n, #[trigger] stack@[k]@),
                forall|k: int| 0 <= k < base.len() ==> (#[trigger] stack@[k]@).len() <= n + 1,
                forall|k: int| base.len() <= k < stack@.len() ==> {
                    &&& (#[trigger] stack@[k]@).len() == path@.len() + 1
                    &&& stack@[k]@.drop_last() == path@
                    &&& entry_core(*graph, pushed@, accept, n, stack@[k]@)
                },
                stack_weight(stack@, n, b) == stack_weight(base, n, b) + (stack@.len() - base.len()) * wc,
                stack@.len() - base.len() <= e,
                paths@.len() >= base_paths.len(),
                paths@.subrange(0, base_paths.len() as int) == base_paths,
                forall|k: int| 0 <= k < base_paths.len() ==> recorded_ok(*graph, pushed@, accept, n, #[trigger] paths@[k]@),
                forall|k: int| base_paths.len() <= k < paths@.len() ==> {
                    &&& (#[trigger] paths@[k]@) == path@.push(0)
                    &&& !path@.contains(0)
                    &&& graph.has_live_edge(node as int, 0)
                },
                accept == 0 ==> paths@.len() == 0,
                forall|x: int| 0 <= x < e ==> !#[trigger] graph.live_edge(x, node as int, node as int),
                forall|q: Seq<usize>| search_path(*graph, accept, q) ==> (#[trigger] contains_path(paths@, q)
                    || prefix_on_stack(stack@, q) || (is_prefix(path@, q)
                    && forall|x: int| 0 <= x < e ==> !#[trigger] graph.live_edge(x, node as int, q[path@.len() as int] as int))),
                self_loops_recorded(g0, *graph, self_nodes@),
            decreases graph.edges.len() - e,
        {
            let ghost g_i = *graph;
            let ghost pushed_i = pushed@;
            let ghost stack_i = stack@;
            let ghost paths_i = paths@;
            let ghost self_i = self_nodes@;
            let ghost mut step: int = 0;
            let ghost mut gone: int = -1;
            if !graph.removed[e] && graph.edges[e].from == node {
                let parent = graph.edges[e].to;
                if parent == node {
                    if !contains(&self_nodes, node) {
                        self_nodes.push(node);
                        assert(self_nodes@[self_nodes@.len() - 1] == node);
                    }
                    graph.removed.set(e, true);
                    proof {
                        step = 1;
                        gone = e as int;
                    }
                } else if !contains(&path, parent) {
                    if parent == 0 {
                        paths.push(extended(&path, 0));
                        proof {
                            step = 3;
                        }
                    } else {
                        let found = graph.find_edge(parent, node);
                        if let Some(rev) = found {
                            if graph.pending[rev] && !pushed[rev] {
                                graph.removed.set(rev, true);
                                proof {
                                    gone = rev as int;
                                }
                            }
                        }
                        pushed.set(e, true);
                        stack.push(extended(&path, parent));
                        proof {
                            step = 4;
                        }
                    }
                } else {
                    proof {
                        step = 2;
                    }
                }
            }
            proof {
                let y = graph.edges@[e as int].to;
                // what the step did
                assert(step != 0 ==> g_i.live_edge(e as int, node as int, y as int));
                assert(step == 1 ==> y == node && graph.removed@ == g_i.removed@.update(e as int, true)
                    && self_nodes@.contains(node) && (self_nodes@ == self_i || self_nodes@ == self_i.push(node)));
                assert(step != 1 ==> self_nodes@ == self_i);
                assert(step == 2 ==> path@.contains(y));
                assert(step == 3 ==> y == 0 && !path@.contains(0) && paths@.len() == paths_i.len() + 1 && paths@.drop_last() == paths_i
                    && paths@.last()@ == path@.push(0));
                assert(step != 3 ==> paths@ == paths_i);
                assert(step == 4 ==> y != 0 && y != node && !path@.contains(y) && pushed@ == pushed_i.update(e as int, true)
                    && stack@.len() == stack_i.len() + 1 && stack@.drop_last() == stack_i && stack@.last()@ == path@.push(y));
                assert(step != 4 ==> pushed@ == pushed_i && stack@ == stack_i);
                assert(step == 4 && gone >= 0 ==> graph.removed@ == g_i.removed@.update(gone, true) && !pushed_i[gone]
                    && g_i.pending@[gone] && g_i.live_edge(gone, y as int, node as int));
                assert(gone < 0 ==> graph.removed@ == g_i.removed@);
                assert(step != 1 && step != 4 ==> gone < 0);
                assert(step == 1 ==> gone == e);
                assert(g_i.live_edge(e as int, node as int, y as int) ==> step != 0);
                assert(step >= 2 ==> y != node);
                // the graph only lost `gone`, and the walked edges only grew
                if gone >= 0 {
                    lemma_remove_one(g_i, *graph, gone);
                }
                lemma_shrink(g_i, *graph);
                lemma_walked_grow(g_i, *graph, pushed_i, pushed@);
                let gg = *graph;
                let pp = pushed@;
                assert(step == 4 && gone >= 0 ==> gone != e) by {
                    if step == 4 && gone >= 0 {
                        assert(g_i.edges@[gone].from == y);
                    }
                }
                assert forall|x: int| 0 <= x < pp.len() && #[trigger] pp[x] implies !gg.removed@[x]
                    && gg.edges@[x].from != gg.edges@[x].to by {
                    if x != e || step != 4 {
                        assert(pushed_i[x]);
                    }
                }
                assert(entry_core(g_i, pushed_i, accept, n, path@));
                assert(cleared_upto(g_i, path@, path@.len() - 1));
                // base entries keep their properties
                assert forall|k: int| 0 <= k < base.len() implies entry_ok(gg, pp, accept, n, #[trigger] stack@[k]@) by {
                    assert(stack@[k] == stack_i[k]);
                    assert(entry_core(g_i, pushed_i, accept, n, stack_i[k]@));
                    assert(cleared_upto(g_i, stack_i[k]@, stack_i[k]@.len() - 1));
                }
                assert forall|k: int| 0 <= k < base.len() implies (#[trigger] stack@[k]@).len() <= n + 1 by {
                    assert(stack@[k] == stack_i[k]);
                }
                assert forall|k: int| base.len() <= k < stack@.len() implies {
                    &&& (#[trigger] stack@[k]@).len() == path@.len() + 1
                    &&& stack@[k]@.drop_last() == path@
                    &&& entry_core(gg, pp, accept, n, stack@[k]@)
                } by {
                    if k < stack_i.len() {
                        assert(stack@[k] == stack_i[k]);
                        assert(entry_core(g_i, pushed_i, accept, n, stack_i[k]@));
                    } else {
                        let c = path@.push(y);
                        assert(stack@[k]@ == c);
                        assert(c.drop_last() =~= path@);
                        assert(walked(gg, pp, e as int, node as int, y as int));
                        assert forall|i: int| 0 <= i < c.len() - 1 implies #[trigger] walked_link(gg, pp, c[i] as int, c[i + 1] as int) by {
                            if i < path@.len() - 1 {
                                assert(walked_link(g_i, pushed_i, path@[i] as int, path@[i + 1] as int));
                            } else {
                                assert(c[i] == node && c[i + 1] == y);
                            }
                        }
                        assert forall|i: int| 1 <= i < c.len() implies (#[trigger] c[i] < n && c[i] != 0) by {
                            if i < path@.len() {
                                assert(c[i] == path@[i]);
                            }
                        }
                        assert(c.no_duplicates()) by {
                            assert forall|i: int, j: int| 0 <= i < c.len() && 0 <= j < c.len() && i != j implies c[i] != c[j] by {
                                if i < path@.len() && j < path@.len() {
                                    assert(c[i] == path@[i] && c[j] == path@[j]);
                                } else if i < path@.len() {
                                    assert(c[i] == path@[i]);
                                } else if j < path@.len() {
                                    assert(c[j] == path@[j]);
                                }
                            }
                        }
                    }
                }
                // stack weight
                if step == 4 {
                    assert(stack@.drop_last() == stack_i);
                    assert(stack_weight(stack@, n, b) == stack_weight(stack_i, n, b) + weight(stack@.last()@.len(), n, b));
                    assert(stack@.last()@.len() == path@.len() + 1);
                    let m = stack_i.len() - base.len();
                    assert(stack@.last()@.len() == path@.len() + 1);
                    assert(weight(stack@.last()@.len(), n, b) == wc);
                    assert(stack_weight(stack_i, n, b) == stack_weight(base, n, b) + m * wc);
                    assert(m * wc + wc == (m + 1) * wc) by (nonlinear_arith);
                    assert(stack@.len() - base.len() == m + 1);
                    assert(stack_weight(stack@, n, b) == stack_weight(base, n, b) + (stack@.len() - base.len()) * wc);
                }
                // node is not the start state once a path has been recorded
                assert(paths@.len() > 0 ==> accept != 0);
                assert((accept != 0 && path@.len() == 1) ==> node != 0);
                assert(path@.len() > 1 ==> node != 0) by {
                    if path@.len() > 1 {
                        assert(path@[path@.len() - 1] != 0);
                    }
                }
                assert forall|k: int| 0 <= k < base_paths.len() implies recorded_ok(gg, pp, accept, n, #[trigger] paths@[k]@) by {
                    assert(paths@[k] == paths_i[k]);
                    let p = paths_i[k]@;
                    assert(recorded_ok(g_i, pushed_i, accept, n, p));
                    assert(entry_core(g_i, pushed_i, accept, n, p.drop_last()));
                    assert(cleared_upto(g_i, p, p.len() - 1));
                    assert(p.drop_last().last() == p[p.len() - 2]);
                    assert(p[p.len() - 2] != 0) by {
                        assert(p.drop_last()[p.len() - 2] == p[p.len() - 2]);
                    }
                    assert(g_i.has_live_edge(p[p.len() - 2] as int, 0));
                }
                assert forall|k: int| base_paths.len() <= k < paths@.len() implies {
                    &&& (#[trigger] paths@[k]@) == path@.push(0)
                    &&& !path@.contains(0)
                    &&& graph.has_live_edge(node as int, 0)
                } by {
                    if k < paths_i.len() {
                        assert(paths@[k] == paths_i[k]);
                        assert(node != 0) by {
                            assert(path@[path@.len() - 1] == node);
                        }
                        assert(paths_i[k]@ == path@.push(0));
                        assert(g_i.has_live_edge(node as int, 0));
                        let w = choose|w: int| #[trigger] g_i.live_edge(w, node as int, 0);
                        if gone >= 0 {
                            assert(g_i.edges@[gone].to == node || g_i.edges@[gone].from != node);
                            assert(w != gone);
                        }
                        assert(gg.live_edge(w, node as int, 0));
                    } else {
                        assert(gg.live_edge(e as int, node as int, 0));
                    }
                }
                assert forall|x: int| 0 <= x < e + 1 implies !#[trigger] gg.live_edge(x, node as int, node as int) by {
                    if x < e {
                        assert(!g_i.live_edge(x, node as int, node as int));
                    }
                }
                assert forall|q: Seq<usize>| search_path(gg, accept, q) implies (#[trigger] contains_path(paths@, q)
                    || prefix_on_stack(stack@, q) || (is_prefix(path@, q)
                    && forall|x: int| 0 <= x < e + 1 ==> !#[trigger] gg.live_edge(x, node as int, q[path@.len() as int] as int))) by {
                    assert(search_path(g_i, accept, q));
                    if contains_path(paths_i, q) {
                        let k = choose|k: int| 0 <= k < paths_i.len() && #[trigger] paths_i[k]@ == q;
                        assert(paths@[k] == paths_i[k]);
                    } else if prefix_on_stack(stack_i, q) {
                        let k = choose|k: int| 0 <= k < stack_i.len() && is_prefix(#[trigger] stack_i[k]@, q);
                        assert(stack@[k] == stack_i[k]);
                    } else {
                        let z = q[path@.len() as int];
                        assert(q.subrange(0, path@.len() as int) == path@);
                        assert(q[path@.len() - 1] == node);
                        assert(z != node);
                        assert(!path@.contains(z)) by {
                            if path@.contains(z) {
                                let i = choose|i: int| 0 <= i < path@.len() && path@[i] == z;
                                assert(q[i] == z);
                            }
                        }
                        if gg.live_edge(e as int, node as int, z as int) {
                            assert(y == z);
                            if z == 0 {
                                assert(q.len() == path@.len() + 1) by {
                                    assert(q[q.len() - 1] == 0);
                                }
                                assert(q =~= path@.push(0));
                                assert(paths@[paths@.len() - 1]@ == q);
                            } else {
                                assert(q.last() == 0);
                                assert(path@.len() + 1 < q.len());
                                assert(q.subrange(0, path@.len() as int + 1) =~= path@.push(z));
                                assert(is_prefix(stack@[stack@.len() - 1]@, q));
                            }
                        } else {
                            assert forall|x: int| 0 <= x < e + 1 implies !#[trigger] gg.live_edge(x, node as int, z as int) by {
                                if x < e {
                                    assert(!g_i.live_edge(x, node as int, z as int));
                                }
                            }
                        }
                    }
                }
                // self-loops
                lemma_shrink(g0, g_i);
                assert forall|k: int| 0 <= k < self_nodes@.len() implies #[trigger] has_self_loop(g0, self_nodes@[k] as int) by {
                    if k < self_i.len() {
                        assert(self_nodes@[k] == self_i[k]);
                    } else {
                        assert(g0.live_edge(e as int, node as int, node as int));
                    }
                }
                assert forall|x: int| 0 <= x < g0.edges@.len() && !g0.removed@[x] && #[trigger] gg.removed@[x]
                    && g0.edges@[x].from == g0.edges@[x].to implies self_nodes@.contains(g0.edges@[x].from) by {
                    if g_i.removed@[x] {
                        assert(self_i.contains(g0.edges@[x].from));
                        let k = choose|k: int| 0 <= k < self_i.len() && self_i[k] == g0.edges@[x].from;
                        assert(self_nodes@[k] == self_i[k]);
                    }
                }
            }
            e += 1;
        }
        proof {
            let gg = *graph;
            let pp = pushed@;
            assert(!has_self_loop(gg, node as int)) by {
                if has_self_loop(gg, node as int) {
                    let x = choose|x: int| #[trigger] gg.live_edge(x, node as int, node as int);
                }
            }
            assert(cleared_upto(gg, path@, path@.len() - 1));
            assert forall|k: int| 0 <= k < stack@.len() implies entry_ok(gg, pp, accept, n, #[trigger] stack@[k]@)
                && stack@[k]@.len() <= n + 1 by {
                if k >= base.len() {
                    let c = stack@[k]@;
                    assert(c.drop_last() == path@);
                    assert forall|j: int| 0 <= j < c.len() - 1 implies !#[trigger] has_self_loop(gg, c[j] as int) by {
                        if j < path@.len() - 1 {
                            assert(c[j] == path@[j]);
                        } else {
                            assert(c[j] == path@[path@.len() - 1]);
                        }
                    }
                    lemma_simple_path_len(c, n);
                }
            }
            assert forall|k: int| 0 <= k < paths@.len() implies recorded_ok(gg, pp, accept, n, #[trigger] paths@[k]@) by {
                if k >= base_paths.len() {
                    let c = paths@[k]@;
                    assert(c.drop_last() =~= path@);
                    assert forall|j: int| 0 <= j < c.len() - 1 implies !#[trigger] has_self_loop(gg, c[j] as int) by {
                        if j < path@.len() - 1 {
                            assert(c[j] == path@[j]);
                        } else {
                            assert(c[j] == path@[path@.len() - 1]);
                        }
                    }
                    assert(c[c.len() - 2] == node);
                }
            }
            assert forall|q: Seq<usize>| search_path(gg, accept, q) implies (#[trigger] contains_path(paths@, q)
                || prefix_on_stack(stack@, q)) by {
                if !contains_path(paths@, q) && !prefix_on_stack(stack@, q) {
                    assert(is_prefix(path@, q));
                    let i = path@.len() - 1;
                    assert(q[i] == node) by {
                        assert(q.subrange(0, path@.len() as int)[i] == path@[i]);
                    }
                    assert(gg.has_live_edge(q[i] as int, q[i + 1] as int));
                    let x = choose|x: int| #[trigger] gg.live_edge(x, q[i] as int, q[i + 1] as int);
                    assert(!gg.live_edge(x, node as int, q[path@.len() as int] as int));
                }
            }
            // the stack's weight went down
            let m = stack@.len() - base.len();
            assert(path@.len() <= n + 1);
            lemma_weight_step(path@.len(), n, b);
            assert(wc > 0);
            assert(m <= graph.edges@.len());
            assert(m * wc < b * wc) by (nonlinear_arith)
                requires m <= b - 1, wc > 0, b >= 1;
        }
    }
    proof {
        let gg = *graph;
        assert forall|k: int| 0 <= k < paths@.len() implies search_path(gg, accept, #[trigger] paths@[k]@) by {
            let p = paths@[k]@;
            assert(recorded_ok(gg, pushed@, accept, n, p));
            let h = p.drop_last();
            assert(p[0] == h[0]);
            assert(p.no_duplicates()) by {
                assert forall|i: int, j: int| 0 <= i < p.len() && 0 <= j < p.len() && i != j implies p[i] != p[j] by {
                    if i < h.len() && j < h.len() {
                        assert(h[i] == p[i] && h[j] == p[j]);
                    } else if i < h.len() {
                        assert(h[i] == p[i]);
                    } else if j < h.len() {
                        assert(h[j] == p[j]);
                    }
                }
            }
            assert forall|i: int| 0 <= i < p.len() - 1 implies #[trigger] gg.has_live_edge(p[i] as int, p[i + 1] as int) by {
                if i < p.len() - 2 {
                    assert(walked_link(gg, pushed@, h[i] as int, h[i + 1] as int));
                    let x = choose|x: int| #[trigger] walked(gg, pushed@, x, h[i] as int, h[i + 1] as int);
                    assert(gg.live_edge(x, p[i] as int, p[i + 1] as int));
                }
            }
        }
        assert forall|k: int, j: int| 0 <= k < paths@.len() && 0 <= j < paths@[k]@.len() - 1
            && #[trigger] has_self_loop(g0, paths@[k]@[j] as int) implies self_nodes@.contains(paths@[k]@[j]) by {
            let p = paths@[k]@;
            assert(recorded_ok(gg, pushed@, accept, n, p));
            assert(!has_self_loop(gg, p[j] as int));
            let x = choose|x: int| #[trigger] g0.live_edge(x, p[j] as int, p[j] as int);
            assert(!gg.live_edge(x, p[j] as int, p[j] as int));
        }
    }
    PathSearch { paths, self_nodes }
}

} // verus!
