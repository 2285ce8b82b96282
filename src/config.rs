//! The decomposed regex definition and the whole compilation run.
use vstd::prelude::*;
use vstd::string::*;
use crate::automaton::{Automaton, StateDesc, is_accept_tag, parse_automaton, dfa_to_regex_def_text, get_accepted_state, get_max_state, description_ok, describes, first_bad_state, state_error, accepted_state, all_states_text, max_state, max_next};
use crate::boundary::{concat_upto, cumulative, ends_on, collected_pairs, path_fragment_pairs, lemma_spells_unique, spelled, byte_chars, pattern_end, pattern_ends_ok, first_bad_span, first_failing_pattern, regex_first_match, cumulative_patterns, path_literal, string_of_bytes, fragment_ends, add_substr_defs_from_path, add_self_loops, slice_pairs, self_pairs, referenced, span_start};
use crate::cycles::{mark_cycle_edges, cycles_marked};
use crate::defs::{SubstrDefs, substr_defs_text, substr_text};
use crate::error::{JsCallerError, VrmError};
use crate::graph::{AutomatonGraph, add_graph_nodes, new_markers, batch_edges, lemma_batch_edge_iff};
use crate::paths::{find_paths, search_path, contains_path, has_self_loop, evolves};

verus! {

/// How a downstream contract encodes a fragment's value; carried, not used here.
#[derive(Debug, Clone, Copy, PartialEq, Eq)]
pub enum SoldityType {
    String,
    Uint,
    Decimal,
}

/// One fragment of the definition.
#[derive(Debug, Clone)]
pub struct RegexPartConfig {
    pub is_public: bool,
    pub regex_def: String,
    pub max_size: usize,
    pub solidity: Option<SoldityType>,
}

/// The ordered fragments, and the largest input the automaton must take.
#[derive(Debug, Clone)]
pub struct DecomposedRegexConfig {
    pub max_byte_size: usize,
    pub parts: Vec<RegexPartConfig>,
}

/// The outcome of a run: the all-states table, one substring-definition
/// file per public fragment (in fragment order) with the set it was written
/// from, and the search that produced them.
#[derive(Debug, Clone)]
pub struct RegexDefs {
    pub allstr: Vec<u8>,
    pub substrs: Vec<Vec<u8>>,
    pub defs: Vec<SubstrDefs>,
    pub public_config_indexes: Vec<usize>,
    pub accepted_state: usize,
    pub paths: Vec<Vec<usize>>,
    pub self_nodes: Vec<usize>,
    pub graph: AutomatonGraph,
}

pub open spec fn part_defs(parts: Seq<RegexPartConfig>) -> Seq<Seq<char>> {
    parts.map_values(|p: RegexPartConfig| p.regex_def@)
}

pub open spec fn part_defs_of(formatted: Seq<String>) -> Seq<Seq<char>> {
    formatted.map_values(|s: String| s@)
}

/// The full pattern: an optional run of any bytes and the context prefix,
/// the fragments in order, then a line break and an optional run of any bytes.
pub open spec fn composed_regex(catch_all: Seq<char>, context_prefix: Seq<char>, parts: Seq<RegexPartConfig>) -> Seq<char> {
    "("@ + catch_all + "+)?"@ + context_prefix + concat_upto(part_defs(parts), parts.len() as int)
        + "\r\n("@ + catch_all + "+)?"@
}

/// Some state description carries the accept tag.
pub open spec fn has_accept_tag(dfa: Seq<StateDesc>) -> bool {
    exists|i: int| 0 <= i < dfa.len() && is_accept_tag(#[trigger] dfa[i].kind)
}

/// The graph has a transition from `s` to itself, present or not.
pub open spec fn has_self_transition(g: AutomatonGraph, s: usize) -> bool {
    exists|e: int| 0 <= e < g.edges@.len() && (#[trigger] g.edges@[e]).from == s && g.edges@[e].to == s
}

/// The automaton has a transition from state `from` to state `to`.
pub open spec fn is_transition(a: Automaton, from: int, to: int) -> bool {
    0 <= from < a.states@.len() && exists|j: int| 0 <= j < a.states@[from].transitions@.len()
        && (#[trigger] a.states@[from].transitions@[j]).next == to
}

/// `g` is the reversed graph of `a` as one batch builds it, up to its
/// largest state: nothing removed, nothing marked.
pub open spec fn built_from(a: Automaton, g: AutomatonGraph) -> bool {
    &&& g.last_allocated@ == new_markers(None, max_state(a.states@) as usize)
    &&& g.edge_views() == batch_edges(a.states@, None, g.node_count())
    &&& g.removed@.len() == g.edges@.len()
    &&& g.pending@.len() == g.edges@.len()
    &&& forall|e: int| 0 <= e < g.edges@.len() ==> !#[trigger] g.removed@[e] && !g.pending@[e]
}

/// `g` is the graph of `a` after its cycle-closing edges were marked and the
/// search removed edges from it.
pub open spec fn run_graph(a: Automaton, g: AutomatonGraph) -> bool {
    exists|b: AutomatonGraph, m: AutomatonGraph| #[trigger] built_from(a, b) && #[trigger] cycles_marked(b, m) && evolves(m, g)
}

/// Some edge from `x` to `y` of `g` is not marked as closing a cycle.
pub open spec fn unmarked_step(g: AutomatonGraph, x: int, y: int) -> bool {
    exists|e: int| 0 <= e < g.edges@.len() && (#[trigger] g.edges@[e]).from == x && g.edges@[e].to == y && !g.pending@[e]
}

/// `j` is the first of the cumulative regexes `pats` that fails on `text`,
/// does not match it, or ends beyond what a position can hold.
pub open spec fn first_failing(pats: Seq<Seq<char>>, text: Seq<char>, j: int) -> bool {
    &&& 0 <= j < pats.len()
    &&& !pattern_ends_ok(pats[j], text)
    &&& forall|m: int| 0 <= m < j ==> pattern_ends_ok(#[trigger] pats[m], text)
}

/// The path `p` of `g` (found backwards) makes the boundary mapping fail with
/// `e`: one of the cumulative regexes `pats` fails on its literal, or the
/// slice of a public fragment (`public`) falls outside the path.
pub open spec fn path_fails(g: AutomatonGraph, pats: Seq<Seq<char>>, public: Seq<usize>, p: Seq<usize>, e: VrmError) -> bool {
    let states = p.reverse();
    let text = byte_chars(spelled(g, states));
    ||| exists|j: int| #[trigger] first_failing(pats, text, j) && e == (if regex_first_match(pats[j], text) is None {
        VrmError::RegexError(j as usize)
    } else {
        VrmError::FragmentNotMatched(j as usize)
    })
    ||| (forall|j: int| 0 <= j < pats.len() ==> #[trigger] pattern_ends_ok(pats[j], text))
        && exists|j: int| #[trigger] first_bad_span(public, ends_on(pats, text), states.len(), j)
        && e == VrmError::FragmentNotMatched(public[j])
}

/// `ps` are exactly the search paths of `g` from `accept`.
pub open spec fn found_paths(g: AutomatonGraph, accept: usize, ps: Seq<Vec<usize>>) -> bool {
    &&& forall|k: int| 0 <= k < ps.len() ==> search_path(g, accept, #[trigger] ps[k]@)
    &&& forall|q: Seq<usize>| search_path(g, accept, q) ==> #[trigger] contains_path(ps, q)
}

/// A run on the automaton `a` that `dfa` describes left the graph `g` and
/// found the paths `ps`, and the `k`-th of them fails with `e`.
pub open spec fn failed_run(
    parts: Seq<RegexPartConfig>,
    dfa: Seq<StateDesc>,
    formatted: Seq<String>,
    a: Automaton,
    g: AutomatonGraph,
    ps: Seq<Vec<usize>>,
    idx: Seq<usize>,
    k: int,
    e: VrmError,
) -> bool {
    &&& describes(a, dfa)
    &&& accepted_state(a.states@) is Some
    &&& run_graph(a, g)
    &&& found_paths(g, accepted_state(a.states@)->0 as usize, ps)
    &&& public_indexes(parts, idx)
    &&& 0 <= k < ps.len()
    &&& path_fails(g, cumulative(part_defs_of(formatted)), idx, ps[k]@, e)
}

/// The indexes of the public fragments, in order.
pub open spec fn public_indexes(parts: Seq<RegexPartConfig>, idx: Seq<usize>) -> bool {
    &&& forall|j: int| 0 <= j < idx.len() ==> #[trigger] idx[j] < parts.len() && parts[idx[j] as int].is_public
    &&& forall|j: int, m: int| 0 <= j < m < idx.len() ==> #[trigger] idx[j] < #[trigger] idx[m]
    &&& forall|k: int| 0 <= k < parts.len() && (#[trigger] parts[k]).is_public ==> idx.contains(k as usize)
}

fn has_accept(dfa: &[StateDesc]) -> (r: bool)
    ensures
        r == has_accept_tag(dfa@),
{
    let mut i: usize = 0;
    while i < dfa.len()
        invariant
            i <= dfa@.len(),
            forall|k: int| 0 <= k < i ==> !is_accept_tag(#[trigger] dfa@[k].kind),
        decreases dfa.len() - i,
    {
        let found = match &dfa[i].kind {
            Some(k) => {
                let tag = String::from_str("accept");
                *k == tag
            },
            None => false,
        };
        if found {
            assert(is_accept_tag(dfa@[i as int].kind));
            return true;
        }
        i += 1;
    }
    false
}

/// The forward order of a path found backwards.
fn reversed(v: &Vec<usize>) -> (r: Vec<usize>)
    ensures
        r@ == v@.reverse(),
{
    let mut r: Vec<usize> = Vec::new();
    let mut i: usize = v.len();
    while i > 0
        invariant
            i <= v@.len(),
            r@ == v@.subrange(i as int, v@.len() as int).reverse(),
        decreases i,
    {
        i -= 1;
        r.push(v[i]);
        assert(r@ =~= v@.subrange(i as int, v@.len() as int).reverse());
    }
    assert(v@.subrange(0, v@.len() as int) =~= v@);
    r
}

proof fn lemma_max_next_bound(ts: Seq<crate::automaton::Transition>, m: nat)
    requires
        m < usize::MAX,
        forall|j: int| 0 <= j < ts.len() ==> (#[trigger] ts[j]).next < usize::MAX,
    ensures
        max_next(ts, m) < usize::MAX,
    decreases ts.len(),
{
    if ts.len() > 0 {
        lemma_max_next_bound(ts.drop_last(), m);
    }
}

proof fn lemma_max_state_bound(a: crate::automaton::Automaton, n: int)
    requires
        a.well_labeled(),
        0 <= n <= a.states@.len(),
    ensures
        max_state(a.states@.subrange(0, n)) < usize::MAX,
    decreases n,
{
    let s = a.states@.subrange(0, n);
    if n > 0 {
        lemma_max_state_bound(a, n - 1);
        assert(s.drop_last() =~= a.states@.subrange(0, n - 1));
        assert forall|j: int| 0 <= j < s.last().transitions@.len() implies (#[trigger] s.last().transitions@[j]).next < usize::MAX by {
            assert(a.states@[n - 1].transitions@[j].next < usize::MAX);
        }
        lemma_max_next_bound(s.last().transitions@, max_state(s.drop_last()));
    }
}

/// A path found backwards passes, in forward order, through the same states.
proof fn lemma_reverse_contains(p: Seq<usize>, x: usize)
    requires
        p.reverse().contains(x),
    ensures
        p.contains(x),
{
    let i = choose|i: int| 0 <= i < p.reverse().len() && p.reverse()[i] == x;
    assert(p[p.len() - 1 - i] == x);
}

/// Both ends of the pair lie on one of the paths.
pub open spec fn on_some_path(paths: Seq<Vec<usize>>, a: usize, b: usize) -> bool {
    exists|k: int| 0 <= k < paths.len() && (#[trigger] paths[k])@.contains(a) && paths[k]@.contains(b)
}

proof fn lemma_accept_found(states: Seq<crate::automaton::AutomatonState>, i: int)
    requires
        0 <= i < states.len(),
        states[i].accept,
    ensures
        accepted_state(states) is Some,
    decreases states.len(),
{
    if i < states.len() - 1 {
        lemma_accept_found(states.drop_last(), i);
    }
}

/// Every edge of a graph that a run of `a` leaves is a transition of `a`, reversed.
proof fn lemma_edge_is_transition(a: Automaton, b: AutomatonGraph, g: AutomatonGraph, e: int)
    requires
        built_from(a, b),
        g.edges == b.edges,
        0 <= e < g.edges@.len(),
    ensures
        is_transition(a, g.edges@[e].to as int, g.edges@[e].from as int),
{
    let x = b.edge_views()[e];
    assert(batch_edges(a.states@, None, b.node_count()).contains(x)) by {
        assert(b.edge_views()[e] == x);
    }
    lemma_batch_edge_iff(a.states@, b.node_count(), x);
    let (i, j) = choose|i: int, j: int| 0 <= i < a.states@.len() && i < b.node_count()
        && 0 <= j < a.states@[i].transitions@.len() && (#[trigger] a.states@[i].transitions@[j]).next < b.node_count()
        && x == (a.states@[i].transitions@[j].next, i as usize, a.states@[i].transitions@[j].label@);
}

/// A self transition of a state that is a node is an edge of the built graph.
proof fn lemma_self_transition_edge(a: Automaton, b: AutomatonGraph, s: usize)
    requires
        built_from(a, b),
        is_transition(a, s as int, s as int),
        s < b.node_count(),
    ensures
        exists|e: int| 0 <= e < b.edges@.len() && (#[trigger] b.edges@[e]).from == s && b.edges@[e].to == s,
{
    let j = choose|j: int| 0 <= j < a.states@[s as int].transitions@.len()
        && (#[trigger] a.states@[s as int].transitions@[j]).next == s;
    let t = a.states@[s as int].transitions@[j];
    let x = (s, s, t.label@);
    lemma_batch_edge_iff(a.states@, b.node_count(), x);
    assert(batch_edges(a.states@, None, b.node_count()).contains(x));
    let e = choose|e: int| 0 <= e < b.edge_views().len() && b.edge_views()[e] == x;
    assert(b.edges@[e].from == s && b.edges@[e].to == s);
}

impl DecomposedRegexConfig {
    /// The full pattern to compile, given the compiler's any-byte regex and
    /// its context prefix.
    pub fn all_regex(&self, catch_all: &str, text_context_prefix: &str) -> (r: String)
        ensures
            r@ == composed_regex(catch_all@, text_context_prefix@, self.parts@),
    {
        let mut r = String::from_str("(");
        r.append(catch_all);
        r.append("+)?");
        r.append(text_context_prefix);
        let ghost head = r@;
        let mut k: usize = 0;
        while k < self.parts.len()
            invariant
                k <= self.parts@.len(),
                r@ == head + concat_upto(part_defs(self.parts@), k as int),
            decreases self.parts.len() - k,
        {
            r.append(self.parts[k].regex_def.as_str());
            k += 1;
        }
        r.append("\r\n(");
        r.append(catch_all);
        r.append("+)?");
        r
    }

    /// Compiles the definition against the automaton that the compiler
    /// returned for `all_regex`, given each fragment as the normalizer
    /// rewrote it for matching against a literal: the all-states table and,
    /// for each public fragment, the transitions that belong to it. On a
    /// well-formed description with an accept state, it fails only where a
    /// path that the search found makes a cumulative regex fail on its
    /// literal or puts a public fragment's slice outside the path.
    #[verifier::loop_isolation(false)]
    pub fn gen_regex_files(&self, dfa: &[StateDesc], formatted_parts: &Vec<String>) -> (r: Result<RegexDefs, VrmError>)
        requires
            formatted_parts@.len() == self.parts@.len(),
            self.max_byte_size >= 1,
        ensures
            !has_accept_tag(dfa@) ==> r == Err::<RegexDefs, VrmError>(VrmError::JsCallerError(JsCallerError::NoAcceptedState)),
            has_accept_tag(dfa@) && !description_ok(dfa@) ==> exists|i: int| #[trigger] first_bad_state(dfa@, i)
                && r == Err::<RegexDefs, VrmError>(VrmError::JsCallerError(state_error(i, dfa@[i]))),
            r matches Err(VrmError::NoEdge(_, _)) ==> false,
            has_accept_tag(dfa@) && description_ok(dfa@) ==> match r {
                Ok(_) => true,
                Err(e) => exists|a: Automaton, g: AutomatonGraph, ps: Seq<Vec<usize>>, idx: Seq<usize>, k: int|
                    #[trigger] failed_run(self.parts@, dfa@, formatted_parts@, a, g, ps, idx, k, e),
            },
            r matches Ok(out) ==> {
                &&& has_accept_tag(dfa@) && description_ok(dfa@)
                &&& exists|a: Automaton| #[trigger] describes(a, dfa@)
                    && accepted_state(a.states@) == Some(out.accepted_state as nat)
                    && out.allstr@ == all_states_text(a.states@, out.accepted_state as nat)
                    && run_graph(a, out.graph)
                    && (forall|k: int, i: int| 0 <= k < out.paths@.len() && 0 <= i < out.paths@[k]@.len() - 1
                        ==> #[trigger] is_transition(a, out.paths@[k]@[i + 1] as int, out.paths@[k]@[i] as int))
                    && (forall|j: int, x: (usize, usize, bool), s: usize| 0 <= j < out.defs@.len()
                        && #[trigger] out.defs@[j]@.contains(x) && !x.2 && (x.0 == s || x.1 == s) && s != 0
                        && #[trigger] is_transition(a, s as int, s as int)
                        ==> out.defs@[j]@.contains((s, s, false)))
                &&& forall|q: Seq<usize>| q.len() >= 2 && q[0] == out.accepted_state && q.last() == 0 && q.no_duplicates()
                    && (forall|i: int| 0 <= i < q.len() - 1 ==> #[trigger] unmarked_step(out.graph, q[i] as int, q[i + 1] as int))
                    ==> #[trigger] contains_path(out.paths@, q)
                &&& public_indexes(self.parts@, out.public_config_indexes@)
                &&& out.defs@.len() == out.public_config_indexes@.len()
                &&& out.substrs@.len() == out.public_config_indexes@.len()
                &&& forall|j: int| 0 <= j < out.substrs@.len() ==> (#[trigger] out.substrs@[j])@ == substr_text(
                    self.parts@[out.public_config_indexes@[j] as int].max_size as nat, self.max_byte_size as nat, out.defs@[j])
                &&& forall|k: int| 0 <= k < out.paths@.len() ==> search_path(out.graph, out.accepted_state, #[trigger] out.paths@[k]@)
                &&& forall|q: Seq<usize>| search_path(out.graph, out.accepted_state, q) ==> #[trigger] contains_path(out.paths@, q)
                &&& forall|j: int| 0 <= j < out.defs@.len() ==> {
                    let c = collected_pairs(out.graph, cumulative(part_defs_of(formatted_parts@)),
                        out.public_config_indexes@, j, out.paths@, out.paths@.len() as int);
                    #[trigger] out.defs@[j]@ == c.union(self_pairs(c, out.self_nodes@))
                }
                &&& forall|j: int, x: (usize, usize, bool), s: usize| 0 <= j < out.defs@.len()
                    && #[trigger] out.defs@[j]@.contains(x) && !x.2 && (x.0 == s || x.1 == s) && s != 0
                    && #[trigger] has_self_transition(out.graph, s)
                    ==> out.defs@[j]@.contains((s, s, false))
            },
    {
        if !has_accept(dfa) {
            return Err(VrmError::JsCallerError(JsCallerError::NoAcceptedState));
        }
        let automaton = match parse_automaton(dfa) {
            Ok(a) => a,
            Err(e) => return Err(VrmError::JsCallerError(e)),
        };
        proof {
            let i = choose|i: int| 0 <= i < dfa@.len() && is_accept_tag(#[trigger] dfa@[i].kind);
            assert(automaton.states@[i].accept);
            lemma_accept_found(automaton.states@, i);
        }
        let allstr = match dfa_to_regex_def_text(&automaton) {
            Ok(t) => t,
            Err(e) => return Err(VrmError::JsCallerError(e)),
        };
        let accepted = match get_accepted_state(&automaton) {
            Some(a) => a,
            None => return Err(VrmError::JsCallerError(JsCallerError::NoAcceptedState)),
        };
        let max_state = get_max_state(&automaton);
        proof {
            lemma_max_state_bound(automaton, automaton.states@.len() as int);
            assert(automaton.states@.subrange(0, automaton.states@.len() as int) =~= automaton.states@);
        }
        let mut graph = AutomatonGraph::new();
        let ghost empty = graph;
        add_graph_nodes(&automaton, &mut graph, None, max_state);
        let ghost built = graph;
        proof {
            assert(empty.last_allocated@ =~= Seq::<bool>::empty());
            assert(empty.edge_views() =~= Seq::<(usize, usize, Seq<u8>)>::empty());
            assert(built.last_allocated@ =~= new_markers(None, max_state));
            assert(built.edge_views() =~= batch_edges(automaton.states@, None, built.node_count()));
            assert(built.removed@ =~= Seq::new(built.edges@.len(), |k: int| false));
            assert(built.pending@ =~= Seq::new(built.edges@.len(), |k: int| false));
            assert(built_from(automaton, built));
        }
        mark_cycle_edges(&mut graph);
        let ghost marked = graph;
        let search = find_paths(&mut graph, accepted);
        let patterns = cumulative_patterns(formatted_parts);
        let mut public: Vec<usize> = Vec::new();
        let mut k: usize = 0;
        while k < self.parts.len()
            invariant
                k <= self.parts@.len(),
                forall|j: int| 0 <= j < public@.len() ==> #[trigger] public@[j] < k && self.parts@[public@[j] as int].is_public,
                forall|j: int, m: int| 0 <= j < m < public@.len() ==> #[trigger] public@[j] < #[trigger] public@[m],
                forall|i: int| 0 <= i < k && (#[trigger] self.parts@[i]).is_public ==> public@.contains(i as usize),
            decreases self.parts.len() - k,
        {
            let ghost pub_before = public@;
            if self.parts[k].is_public {
                public.push(k);
                assert(public@[public@.len() - 1] == k);
            }
            proof {
                assert forall|i: int| 0 <= i < k + 1 && (#[trigger] self.parts@[i]).is_public implies public@.contains(i as usize) by {
                    if i < k {
                        let c = choose|c: int| 0 <= c < pub_before.len() && pub_before[c] == i as usize;
                        assert(public@[c] == pub_before[c]);
                    }
                }
            }
            k += 1;
        }
        let mut defs: Vec<SubstrDefs> = Vec::new();
        while defs.len() < public.len()
            invariant
                defs@.len() <= public@.len(),
                forall|j: int| 0 <= j < defs@.len() ==> (#[trigger] defs@[j]).wf() && defs@[j]@ == Set::<(usize, usize, bool)>::empty(),
            decreases public.len() - defs.len(),
        {
            defs.push(SubstrDefs::new());
        }
        let mut p: usize = 0;
        while p < search.paths.len()
            invariant
                p <= search.paths@.len(),
                graph.wf(),
                graph.well_labeled(),
                defs@.len() == public@.len(),
                patterns@.len() == self.parts@.len(),
                forall|j: int| 0 <= j < public@.len() ==> #[trigger] public@[j] < self.parts@.len(),
                forall|j: int| 0 <= j < defs@.len() ==> (#[trigger] defs@[j]).wf(),
                forall|k: int| 0 <= k < search.paths@.len() ==> search_path(graph, accepted, #[trigger] search.paths@[k]@),
                forall|j: int, x: (usize, usize, bool)| 0 <= j < defs@.len() && #[trigger] defs@[j]@.contains(x)
                    ==> on_some_path(search.paths@, x.0, x.1),
                forall|k: int| 0 <= k < patterns@.len() ==> #[trigger] patterns@[k]@ == cumulative(part_defs_of(formatted_parts@))[k],
                forall|j: int| 0 <= j < defs@.len() ==> #[trigger] defs@[j]@ == collected_pairs(graph,
                    cumulative(part_defs_of(formatted_parts@)), public@, j, search.paths@, p as int),
            decreases search.paths.len() - p,
        {
            let path = &search.paths[p];
            assert(search_path(graph, accepted, path@));
            let states = reversed(path);
            let lit = match path_literal(&graph, &states) {
                Ok(l) => l,
                Err(e) => {
                    proof {
                        let i = choose|i: int| 0 <= i < states@.len() - 1
                            && !#[trigger] graph.has_live_edge(states@[i + 1] as int, states@[i] as int);
                        let m = path@.len() - 2 - i;
                        assert(states@[i + 1] == path@[m] && states@[i] == path@[m + 1]);
                        assert(graph.has_live_edge(path@[m] as int, path@[m + 1] as int));
                    }
                    return Err(e);
                },
            };
            let text = string_of_bytes(&lit);
            let ghost pats = cumulative(part_defs_of(formatted_parts@));
            proof {
                lemma_spells_unique(graph, states@, lit@);
                assert(search.paths@[p as int]@.reverse() == states@);
                assert(run_graph(automaton, graph));
                assert(found_paths(graph, accepted, search.paths@));
            }
            let ends = match fragment_ends(&patterns, text.as_str()) {
                Ok(v) => v,
                Err(e) => {
                    proof {
                        let j = choose|j: int| #[trigger] first_failing_pattern(patterns@, text@, j)
                            && e == (if regex_first_match(patterns@[j]@, text@) is None {
                                VrmError::RegexError(j as usize)
                            } else {
                                VrmError::FragmentNotMatched(j as usize)
                            });
                        assert forall|m: int| 0 <= m < j implies pattern_ends_ok(#[trigger] pats[m], text@) by {
                            assert(patterns@[m]@ == pats[m]);
                            assert(pattern_ends_ok(patterns@[m]@, text@));
                        }
                        assert(patterns@[j]@ == pats[j]);
                        assert(first_failing(pats, text@, j));
                        assert(path_fails(graph, pats, public@, search.paths@[p as int]@, e));
                        assert(failed_run(self.parts@, dfa@, formatted_parts@, automaton, graph, search.paths@, public@, p as int, e));
                    }
                    return Err(e);
                },
            };
            let ghost before = defs@;
            let ghost ends_ok = ends@ =~= ends_on(pats, byte_chars(spelled(graph, states@)));
            proof {
                assert(text@ == byte_chars(spelled(graph, states@)));
                assert forall|k: int| 0 <= k < ends@.len() implies ends@[k] == ends_on(pats, byte_chars(spelled(graph, states@)))[k] by {
                    assert(patterns@[k]@ == pats[k]);
                    assert(crate::boundary::pattern_ends_ok(patterns@[k]@, text@));
                    assert(ends@[k] == pattern_end(patterns@[k]@, text@));
                    assert(pattern_end(pats[k], text@) <= usize::MAX);
                }
                assert(ends@ == ends_on(pats, text@));
            }
            match add_substr_defs_from_path(&mut defs, &states, &ends, &public) {
                Ok(()) => {},
                Err(e) => {
                    proof {
                        assert forall|j: int| 0 <= j < pats.len() implies #[trigger] pattern_ends_ok(pats[j], text@) by {
                            assert(patterns@[j]@ == pats[j]);
                            assert(pattern_ends_ok(patterns@[j]@, text@));
                        }
                        let j = choose|j: int| #[trigger] first_bad_span(public@, ends@, states@.len(), j)
                            && e == VrmError::FragmentNotMatched(public@[j]);
                        assert(first_bad_span(public@, ends_on(pats, text@), states@.len(), j));
                        assert(path_fails(graph, pats, public@, search.paths@[p as int]@, e));
                        assert(failed_run(self.parts@, dfa@, formatted_parts@, automaton, graph, search.paths@, public@, p as int, e));
                    }
                    return Err(e);
                },
            }
            proof {
                assert forall|j: int| 0 <= j < defs@.len() implies #[trigger] defs@[j]@ == collected_pairs(graph,
                    pats, public@, j, search.paths@, p + 1) by {
                    let c0 = collected_pairs(graph, pats, public@, j, search.paths@, p as int);
                    let c1 = collected_pairs(graph, pats, public@, j, search.paths@, p + 1);
                    let here = path_fragment_pairs(graph, pats, public@, j, search.paths@[p as int]@);
                    assert(search.paths@[p as int]@ == path@);
                    assert(defs@[j]@ == before[j]@.union(here));
                    assert(defs@[j]@ =~= c1) by {
                        assert forall|x: (usize, usize, bool)| c1.contains(x) implies defs@[j]@.contains(x) by {
                            let k = choose|k: int| 0 <= k < p + 1 && #[trigger] path_fragment_pairs(graph, pats, public@, j, search.paths@[k]@).contains(x);
                            if k < p {
                                assert(c0.contains(x));
                            }
                        }
                        assert forall|x: (usize, usize, bool)| defs@[j]@.contains(x) implies c1.contains(x) by {
                            if c0.contains(x) {
                                let k = choose|k: int| 0 <= k < p && #[trigger] path_fragment_pairs(graph, pats, public@, j, search.paths@[k]@).contains(x);
                                assert(path_fragment_pairs(graph, pats, public@, j, search.paths@[k]@).contains(x));
                            } else {
                                assert(here.contains(x));
                                assert(path_fragment_pairs(graph, pats, public@, j, search.paths@[p as int]@).contains(x));
                            }
                        }
                    }
                }
                assert forall|j: int, x: (usize, usize, bool)| 0 <= j < defs@.len() && #[trigger] defs@[j]@.contains(x)
                    implies on_some_path(search.paths@, x.0, x.1) by {
                    if !before[j]@.contains(x) {
                        let kk = public@[j] as int;
                        let st = span_start(ends@, kk);
                        let en = ends@[kk] as int;
                        assert(slice_pairs(states@, st, en).contains(x));
                        let i = choose|i: int| st <= i < en && x == #[trigger] crate::boundary::slice_pair(states@, st, en, i);
                        assert(states@.contains(x.0) && states@.contains(x.1)) by {
                            assert(states@[i] == x.0);
                            assert(states@[i + 1] == x.1);
                        }
                        lemma_reverse_contains(path@, x.0);
                        lemma_reverse_contains(path@, x.1);
                        assert(search.paths@[p as int] == *path);
                    }
                }
            }
            p += 1;
        }
        let ghost collected = defs@;
        let mut taken: Vec<SubstrDefs> = Vec::new();
        std::mem::swap(&mut taken, &mut defs);
        let mut j: usize = 0;
        while j < public.len()
            invariant
                j <= public@.len(),
                collected.len() == public@.len(),
                taken@ == collected.subrange(j as int, collected.len() as int),
                defs@.len() == j,
                forall|m: int| 0 <= m < collected.len() ==> (#[trigger] collected[m]).wf(),
                forall|m: int| 0 <= m < j ==> (#[trigger] defs@[m]).wf()
                    && defs@[m]@ == collected[m]@.union(self_pairs(collected[m]@, search.self_nodes@)),
            decreases public.len() - j,
        {
            let mut d = taken.remove(0);
            assert(d == collected[j as int]);
            add_self_loops(&mut d, search.self_nodes.as_slice());
            defs.push(d);
            proof {
                assert(taken@ =~= collected.subrange(j + 1, collected.len() as int));
            }
            j += 1;
        }
        let mut substrs: Vec<Vec<u8>> = Vec::new();
        let mut j: usize = 0;
        while j < public.len()
            invariant
                j <= public@.len(),
                defs@.len() == public@.len(),
                forall|m: int| 0 <= m < public@.len() ==> #[trigger] public@[m] < self.parts@.len(),
                self.max_byte_size >= 1,
                substrs@.len() == j,
                forall|m: int| 0 <= m < j ==> (#[trigger] substrs@[m])@ == substr_text(
                    self.parts@[public@[m] as int].max_size as nat, self.max_byte_size as nat, defs@[m]),
            decreases public.len() - j,
        {
            let t = substr_defs_text(&defs[j], self.parts[public[j]].max_size, self.max_byte_size);
            substrs.push(t);
            j += 1;
        }
        proof {
            assert(describes(automaton, dfa@));
            assert(cycles_marked(built, marked));
            assert(run_graph(automaton, graph));
            assert forall|k: int, i: int| 0 <= k < search.paths@.len() && 0 <= i < search.paths@[k]@.len() - 1
                implies #[trigger] is_transition(automaton, search.paths@[k]@[i + 1] as int, search.paths@[k]@[i] as int) by {
                let pth = search.paths@[k]@;
                assert(search_path(graph, accepted, pth));
                assert(graph.has_live_edge(pth[i] as int, pth[i + 1] as int));
                let e = choose|e: int| #[trigger] graph.live_edge(e, pth[i] as int, pth[i + 1] as int);
                lemma_edge_is_transition(automaton, built, graph, e);
            }
            assert forall|q: Seq<usize>| q.len() >= 2 && q[0] == accepted && q.last() == 0 && q.no_duplicates()
                && (forall|i: int| 0 <= i < q.len() - 1 ==> #[trigger] unmarked_step(graph, q[i] as int, q[i + 1] as int))
                implies #[trigger] contains_path(search.paths@, q) by {
                assert forall|i: int| 0 <= i < q.len() - 1 implies #[trigger] graph.has_live_edge(q[i] as int, q[i + 1] as int) by {
                    assert(unmarked_step(graph, q[i] as int, q[i + 1] as int));
                    let e = choose|e: int| 0 <= e < graph.edges@.len() && (#[trigger] graph.edges@[e]).from == q[i]
                        && graph.edges@[e].to == q[i + 1] && !graph.pending@[e];
                    assert(q[i] != q[i + 1]);
                    assert(!marked.removed@[e]);
                    assert(!graph.removed@[e]);
                    assert(graph.live_edge(e, q[i] as int, q[i + 1] as int));
                }
                assert(search_path(graph, accepted, q));
            }
            assert forall|jj: int, x: (usize, usize, bool), sn: usize| 0 <= jj < defs@.len()
                && #[trigger] defs@[jj]@.contains(x) && !x.2 && (x.0 == sn || x.1 == sn) && sn != 0
                && #[trigger] has_self_transition(graph, sn)
                implies defs@[jj]@.contains((sn, sn, false)) by {
                if collected[jj]@.contains(x) {
                    assert(on_some_path(search.paths@, x.0, x.1));
                    let kk = choose|kk: int| 0 <= kk < search.paths@.len() && (#[trigger] search.paths@[kk])@.contains(x.0)
                        && search.paths@[kk]@.contains(x.1);
                    let pth = search.paths@[kk]@;
                    assert(search_path(graph, accepted, pth));
                    let m = choose|m: int| 0 <= m < pth.len() && pth[m] == sn;
                    assert(m < pth.len() - 1);
                    let e = choose|e: int| 0 <= e < graph.edges@.len() && (#[trigger] graph.edges@[e]).from == sn && graph.edges@[e].to == sn;
                    assert(!marked.removed@[e]);
                    assert(marked.live_edge(e, sn as int, sn as int));
                    assert(has_self_loop(marked, pth[m] as int));
                    assert(search.self_nodes@.contains(sn));
                    assert(referenced(collected[jj]@, sn));
                    assert(self_pairs(collected[jj]@, search.self_nodes@).contains((sn, sn, false)));
                }
            }
            assert forall|jj: int, x: (usize, usize, bool), sn: usize| 0 <= jj < defs@.len()
                && #[trigger] defs@[jj]@.contains(x) && !x.2 && (x.0 == sn || x.1 == sn) && sn != 0
                && #[trigger] is_transition(automaton, sn as int, sn as int)
                implies defs@[jj]@.contains((sn, sn, false)) by {
                if collected[jj]@.contains(x) {
                    let kk = choose|kk: int| 0 <= kk < search.paths@.len() && (#[trigger] search.paths@[kk])@.contains(x.0)
                        && search.paths@[kk]@.contains(x.1);
                    let pth = search.paths@[kk]@;
                    assert(search_path(graph, accepted, pth));
                    let m = choose|m: int| 0 <= m < pth.len() && pth[m] == sn;
                    assert(m < pth.len() - 1);
                    assert(graph.has_live_edge(pth[m] as int, pth[m + 1] as int));
                    let e0 = choose|e0: int| #[trigger] graph.live_edge(e0, pth[m] as int, pth[m + 1] as int);
                    assert(sn < built.node_count());
                    lemma_self_transition_edge(automaton, built, sn);
                    assert(has_self_transition(graph, sn));
                }
            }
        }
        let out = RegexDefs {
            allstr,
            substrs,
            defs,
            public_config_indexes: public,
            accepted_state: accepted,
            paths: search.paths,
            self_nodes: search.self_nodes,
            graph,
        };
        proof {
            assert(out.graph == graph && out.paths@ == search.paths@ && out.defs@ == defs@);
            assert(accepted_state(automaton.states@) == Some(out.accepted_state as nat));
            assert(out.allstr@ == all_states_text(automaton.states@, out.accepted_state as nat));
            assert(run_graph(automaton, out.graph));
            assert(forall|k: int, i: int| 0 <= k < out.paths@.len() && 0 <= i < out.paths@[k]@.len() - 1
                ==> #[trigger] is_transition(automaton, out.paths@[k]@[i + 1] as int, out.paths@[k]@[i] as int));
            assert(forall|j: int, x: (usize, usize, bool), s: usize| 0 <= j < out.defs@.len()
                && #[trigger] out.defs@[j]@.contains(x) && !x.2 && (x.0 == s || x.1 == s) && s != 0
                && #[trigger] is_transition(automaton, s as int, s as int)
                ==> out.defs@[j]@.contains((s, s, false)));
        }
        Ok(out)
    }
}

} // verus!
