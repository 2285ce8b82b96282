use zk_email_vrm::boundary::{add_substr_defs_from_path, cumulative_patterns, fragment_ends, path_literal};
use zk_email_vrm::cycles::mark_cycle_edges;
use zk_email_vrm::paths::find_paths;
use zk_email_vrm::text::push_decimal;
use zk_email_vrm::{
    add_graph_nodes, dfa_to_regex_def_text, get_accepted_state, get_max_state, parse_automaton, AutomatonGraph,
    DecomposedRegexConfig, EdgeDesc, JsCallerError, RegexPartConfig, StateDesc, SubstrDefs, VrmError,
};

fn edge(key: &str, next: u64) -> EdgeDesc {
    EdgeDesc { key: key.to_string(), next: Some(next) }
}

fn state(accept: bool, edges: Vec<EdgeDesc>) -> StateDesc {
    StateDesc { kind: Some(if accept { "accept".to_string() } else { "".to_string() }), edges: Some(edges) }
}

/// The automaton of `a+b+c`: 0 -a-> 1, 1 -a-> 1, 1 -b-> 2, 2 -b-> 2, 2 -c-> 3.
fn abc_dfa() -> Vec<StateDesc> {
    vec![
        state(false, vec![edge("[\"a\"]", 1)]),
        state(false, vec![edge("[\"a\"]", 1), edge("[\"b\"]", 2)]),
        state(false, vec![edge("[\"b\"]", 2), edge("[\"c\"]", 3)]),
        state(true, vec![]),
    ]
}

fn part(is_public: bool, regex_def: &str, max_size: usize) -> RegexPartConfig {
    RegexPartConfig { is_public, regex_def: regex_def.to_string(), max_size, solidity: None }
}

fn abc_config() -> DecomposedRegexConfig {
    DecomposedRegexConfig {
        max_byte_size: 16,
        parts: vec![part(false, "a+", 16), part(true, "b+", 8), part(false, "c", 1)],
    }
}

fn formatted(config: &DecomposedRegexConfig) -> Vec<String> {
    config.parts.iter().map(|p| p.regex_def.clone()).collect()
}

fn text(bytes: &[u8]) -> String {
    String::from_utf8(bytes.to_vec()).unwrap()
}

fn pairs(defs: &SubstrDefs) -> Vec<(usize, usize, bool)> {
    defs.items().clone()
}

#[test]
fn round_trip_abc() {
    let config = abc_config();
    let out = config.gen_regex_files(&abc_dfa(), &formatted(&config)).unwrap();
    assert_eq!(text(&out.allstr), "0\n3\n3\n0 1 97\n1 1 97\n1 2 98\n2 2 98\n2 3 99\n");
    assert_eq!(out.public_config_indexes, vec![1]);
    assert_eq!(out.substrs.len(), 1);
    assert_eq!(text(&out.substrs[0]), "8\n0\n15\n1 1\n1 2\n2 2\n");
    let set = pairs(&out.defs[0]);
    assert!(set.contains(&(2, 2, false)));
    assert!(set.contains(&(1, 2, false)));
    assert!(!set.iter().any(|d| (d.0, d.1) == (0, 1) || (d.0, d.1) == (2, 3)));
}

#[test]
fn self_loop_pair_is_written() {
    let config = abc_config();
    let out = config.gen_regex_files(&abc_dfa(), &formatted(&config)).unwrap();
    assert!(out.self_nodes.contains(&1));
    assert!(out.self_nodes.contains(&2));
    assert!(text(&out.substrs[0]).contains("\n2 2\n"));
}

#[test]
fn paths_run_from_accept_to_start() {
    let config = abc_config();
    let out = config.gen_regex_files(&abc_dfa(), &formatted(&config)).unwrap();
    assert_eq!(out.accepted_state, 3);
    assert_eq!(out.paths, vec![vec![3, 2, 1, 0]]);
    for p in out.paths.iter() {
        assert_eq!(p[0], out.accepted_state);
        assert_eq!(*p.last().unwrap(), 0);
    }
}

#[test]
fn missing_accept_state_is_an_error() {
    let mut dfa = abc_dfa();
    dfa[3] = state(false, vec![]);
    let config = abc_config();
    let r = config.gen_regex_files(&dfa, &formatted(&config));
    assert_eq!(r.unwrap_err(), VrmError::JsCallerError(JsCallerError::NoAcceptedState));
}

#[test]
fn missing_accept_state_comes_before_malformed_edges() {
    let mut dfa = abc_dfa();
    dfa[3] = StateDesc { kind: None, edges: None };
    let config = abc_config();
    let r = config.gen_regex_files(&dfa, &formatted(&config));
    assert_eq!(r.unwrap_err(), VrmError::JsCallerError(JsCallerError::NoAcceptedState));
}

#[test]
fn edges_that_are_not_a_mapping() {
    let mut dfa = abc_dfa();
    dfa[1].edges = None;
    assert_eq!(parse_automaton(&dfa).unwrap_err(), JsCallerError::InvalidEdges(1));
}

#[test]
fn destination_that_is_not_a_state() {
    let mut dfa = abc_dfa();
    dfa[2].edges = Some(vec![edge("[\"b\"]", 2), EdgeDesc { key: "[\"c\"]".to_string(), next: None }]);
    let config = abc_config();
    let r = config.gen_regex_files(&dfa, &formatted(&config));
    assert_eq!(r.unwrap_err(), VrmError::JsCallerError(JsCallerError::InvalidNodeValue(2)));
}

#[test]
fn malformed_byte_set_keys() {
    for key in ["[\"ab\"]", "not json", "[]", "[1]"] {
        let mut dfa = abc_dfa();
        dfa[0].edges = Some(vec![edge(key, 1)]);
        assert_eq!(parse_automaton(&dfa).unwrap_err(), JsCallerError::InvalidEdges(0));
    }
}

#[test]
fn byte_characters_above_ascii() {
    let dfa = vec![state(false, vec![edge("[\"\u{e9}\"]", 1)]), state(true, vec![])];
    let a = parse_automaton(&dfa).unwrap();
    assert_eq!(a.states[0].transitions[0].label, vec![233]);
    assert_eq!(text(&dfa_to_regex_def_text(&a).unwrap()), "0\n1\n1\n0 1 233\n");
    let dfa = vec![state(false, vec![edge("[\"\u{100}\"]", 1)]), state(true, vec![])];
    assert_eq!(parse_automaton(&dfa).unwrap_err(), JsCallerError::InvalidEdges(0));
}

#[test]
fn multi_byte_key_gives_one_line_per_byte() {
    let dfa = vec![state(false, vec![edge("[\"a\",\"b\"]", 1)]), state(true, vec![])];
    let a = parse_automaton(&dfa).unwrap();
    assert_eq!(a.states[0].transitions[0].label, vec![97, 98]);
    assert_eq!(text(&dfa_to_regex_def_text(&a).unwrap()), "0\n1\n1\n0 1 97\n0 1 98\n");
}

#[test]
fn accepted_and_max_state() {
    let a = parse_automaton(&abc_dfa()).unwrap();
    assert_eq!(get_accepted_state(&a), Some(3));
    assert_eq!(get_max_state(&a), 3);
    let empty = parse_automaton(&[]).unwrap();
    assert_eq!(get_accepted_state(&empty), None);
    assert_eq!(get_max_state(&empty), 0);
    assert_eq!(dfa_to_regex_def_text(&empty).unwrap_err(), JsCallerError::NoAcceptedState);
}

#[test]
fn bad_fragment_regex() {
    let config = abc_config();
    let r = config.gen_regex_files(&abc_dfa(), &vec!["(".to_string(), "b+".to_string(), "c".to_string()]);
    assert_eq!(r.unwrap_err(), VrmError::RegexError(0));
}

#[test]
fn fragment_that_does_not_match() {
    let config = abc_config();
    let r = config.gen_regex_files(&abc_dfa(), &vec!["a+".to_string(), "z".to_string(), "c".to_string()]);
    assert_eq!(r.unwrap_err(), VrmError::FragmentNotMatched(1));
}

#[test]
fn runs_are_identical() {
    let config = abc_config();
    let a = config.gen_regex_files(&abc_dfa(), &formatted(&config)).unwrap();
    let b = config.gen_regex_files(&abc_dfa(), &formatted(&config)).unwrap();
    assert_eq!(a.allstr, b.allstr);
    assert_eq!(a.substrs, b.substrs);
}

#[test]
fn written_set_does_not_depend_on_insertion_order() {
    let mut a = SubstrDefs::new();
    let mut b = SubstrDefs::new();
    for d in [(3, 4, false), (1, 2, true), (1, 2, false), (0, 9, false)] {
        a.insert(d);
    }
    for d in [(0, 9, false), (1, 2, false), (3, 4, false), (1, 2, true), (3, 4, false)] {
        b.insert(d);
    }
    let ta = zk_email_vrm::defs::substr_defs_text(&a, 5, 10);
    let tb = zk_email_vrm::defs::substr_defs_text(&b, 5, 10);
    assert_eq!(ta, tb);
    assert_eq!(text(&ta), "5\n0\n9\n0 9\n1 2\n3 4\n");
}

/// Each transition of the path goes to one fragment; the self pairs of the
/// loop states that two fragments touch are folded into both.
#[test]
fn public_fragments_split_transitions_and_share_self_pairs() {
    let config = DecomposedRegexConfig {
        max_byte_size: 16,
        parts: vec![part(true, "a+", 16), part(true, "b+", 8), part(true, "c", 1)],
    };
    let out = config.gen_regex_files(&abc_dfa(), &formatted(&config)).unwrap();
    assert_eq!(out.defs.len(), 3);
    assert_eq!(text(&out.substrs[0]), "16\n0\n15\n0 1\n1 1\n");
    assert_eq!(text(&out.substrs[2]), "1\n0\n15\n2 2\n2 3\n");
    let base: Vec<Vec<(usize, usize)>> = vec![vec![(0, 1)], vec![(1, 2)], vec![(2, 3)]];
    for (j, want) in base.iter().enumerate() {
        let got: Vec<(usize, usize)> = pairs(&out.defs[j]).iter().filter(|d| d.0 != d.1).map(|d| (d.0, d.1)).collect();
        assert_eq!(&got, want);
    }
    assert!(pairs(&out.defs[0]).contains(&(1, 1, false)) && pairs(&out.defs[1]).contains(&(1, 1, false)));
    assert!(pairs(&out.defs[1]).contains(&(2, 2, false)) && pairs(&out.defs[2]).contains(&(2, 2, false)));
}

fn graph_edges(g: &AutomatonGraph) -> Vec<(usize, usize, Vec<u8>)> {
    let mut v: Vec<(usize, usize, Vec<u8>)> = g.edges.iter().map(|e| (e.from, e.to, e.label.clone())).collect();
    v.sort();
    v
}

/// A ten-state chain 0 -> 1 -> ... -> 9 with a loop on every state and a
/// way back from 7 to 3.
fn long_dfa() -> Vec<StateDesc> {
    let mut v = Vec::new();
    for i in 0..10u64 {
        let mut es = vec![edge("[\"x\"]", i)];
        if i < 9 {
            es.push(edge("[\"y\"]", i + 1));
        }
        if i == 7 {
            es.push(edge("[\"z\"]", 3));
        }
        v.push(state(i == 9, es));
    }
    v
}

#[test]
fn growing_in_two_batches_gives_the_same_graph() {
    let a = parse_automaton(&long_dfa()).unwrap();
    let mut once = AutomatonGraph::new();
    add_graph_nodes(&a, &mut once, None, 9);
    let mut twice = AutomatonGraph::new();
    add_graph_nodes(&a, &mut twice, None, 5);
    assert_eq!(twice.last_allocated.len(), 6);
    add_graph_nodes(&a, &mut twice, Some(5), 9);
    assert_eq!(once.last_allocated.len(), 10);
    assert_eq!(twice.last_allocated.len(), 10);
    assert_eq!(graph_edges(&once), graph_edges(&twice));
    assert_eq!(once.edges.len(), 10 + 9 + 1);
}

#[test]
fn growing_from_a_smaller_then_a_larger_description() {
    let large = long_dfa();
    let small: Vec<StateDesc> = large[..6]
        .iter()
        .map(|st| StateDesc {
            kind: st.kind.clone(),
            edges: st.edges.as_ref().map(|es| es.iter().filter(|e| e.next.unwrap() <= 5).cloned().collect()),
        })
        .collect();
    let a_small = parse_automaton(&small).unwrap();
    let a_large = parse_automaton(&large).unwrap();
    let mut twice = AutomatonGraph::new();
    add_graph_nodes(&a_small, &mut twice, None, 5);
    add_graph_nodes(&a_large, &mut twice, Some(5), 9);
    let mut once = AutomatonGraph::new();
    add_graph_nodes(&a_large, &mut once, None, 9);
    assert_eq!(twice.last_allocated.len(), once.last_allocated.len());
    assert_eq!(graph_edges(&twice), graph_edges(&once));
}

#[test]
fn batch_marks_its_highest_node() {
    let a = parse_automaton(&long_dfa()).unwrap();
    let mut g = AutomatonGraph::new();
    add_graph_nodes(&a, &mut g, None, 5);
    assert_eq!(g.last_allocated, vec![false, false, false, false, false, true]);
    add_graph_nodes(&a, &mut g, Some(5), 9);
    assert_eq!(g.last_allocated[9], true);
    assert_eq!(g.last_allocated[6], false);
}

#[test]
fn cycle_closing_edge_is_marked() {
    let a = parse_automaton(&long_dfa()).unwrap();
    let mut g = AutomatonGraph::new();
    add_graph_nodes(&a, &mut g, None, 9);
    mark_cycle_edges(&mut g);
    let marked: Vec<usize> = (0..g.edges.len()).filter(|&e| g.pending[e]).collect();
    assert_eq!(marked.len(), 1);
    let e = &g.edges[marked[0]];
    assert!(e.from >= 3 && e.from <= 7 && e.to >= 3 && e.to <= 7);
    assert!(g.removed.iter().all(|r| !r));
}

#[test]
fn search_over_a_cycle_terminates_with_simple_paths() {
    let a = parse_automaton(&long_dfa()).unwrap();
    let mut g = AutomatonGraph::new();
    add_graph_nodes(&a, &mut g, None, 9);
    mark_cycle_edges(&mut g);
    let r = find_paths(&mut g, 9);
    assert!(!r.paths.is_empty());
    assert!(r.paths.contains(&vec![9, 8, 7, 6, 5, 4, 3, 2, 1, 0]));
    for p in r.paths.iter() {
        assert_eq!(p[0], 9);
        assert_eq!(*p.last().unwrap(), 0);
        let mut seen = p.clone();
        seen.sort();
        seen.dedup();
        assert_eq!(seen.len(), p.len());
    }
    let mut selfs = r.self_nodes.clone();
    selfs.sort();
    assert_eq!(selfs, vec![1, 2, 3, 4, 5, 6, 7, 8, 9]);
}

#[test]
fn branching_automaton_gives_every_path() {
    // 0 -a-> 1, 1 -b-> 2, 1 -c-> 3, 2 -d-> 4, 3 -d-> 4 (accept)
    let dfa = vec![
        state(false, vec![edge("[\"a\"]", 1)]),
        state(false, vec![edge("[\"b\"]", 2), edge("[\"c\"]", 3)]),
        state(false, vec![edge("[\"d\"]", 4)]),
        state(false, vec![edge("[\"d\"]", 4)]),
        state(true, vec![]),
    ];
    let config = DecomposedRegexConfig {
        max_byte_size: 8,
        parts: vec![part(false, "a", 1), part(true, "(b|c)", 1), part(false, "d", 1)],
    };
    let out = config.gen_regex_files(&dfa, &formatted(&config)).unwrap();
    let mut paths = out.paths.clone();
    paths.sort();
    assert_eq!(paths, vec![vec![4, 2, 1, 0], vec![4, 3, 1, 0]]);
    assert_eq!(text(&out.substrs[0]), "1\n0\n7\n1 2\n1 3\n");
}

#[test]
fn literal_and_boundaries_of_one_path() {
    let a = parse_automaton(&abc_dfa()).unwrap();
    let mut g = AutomatonGraph::new();
    add_graph_nodes(&a, &mut g, None, 3);
    let lit = path_literal(&g, &vec![0, 1, 2, 3]).unwrap();
    assert_eq!(lit, b"abc".to_vec());
    assert_eq!(path_literal(&g, &vec![0, 2]).unwrap_err(), VrmError::NoEdge(2, 0));
    let pats = cumulative_patterns(&vec!["a+".to_string(), "b*".to_string(), "c".to_string()]);
    assert_eq!(pats, vec!["a+".to_string(), "a+b*".to_string(), "a+b*c".to_string()]);
    let ends = fragment_ends(&pats, "abc").unwrap();
    assert_eq!(ends, vec![1, 2, 3]);
    // a zero-width match claims one position
    let ends = fragment_ends(&vec!["x*".to_string()], "abc").unwrap();
    assert_eq!(ends, vec![1]);
}

#[test]
fn slices_out_of_range_change_nothing() {
    let mut defs = vec![SubstrDefs::new()];
    let r = add_substr_defs_from_path(&mut defs, &[0, 1, 2], &[1, 5], &[1]);
    assert_eq!(r.unwrap_err(), VrmError::FragmentNotMatched(1));
    assert!(defs[0].items().is_empty());
    let r = add_substr_defs_from_path(&mut defs, &[0, 1, 2, 3], &[1, 3], &[1]);
    assert!(r.is_ok());
    assert_eq!(pairs(&defs[0]), vec![(1, 2, false), (2, 3, true)]);
}

#[test]
fn composed_pattern() {
    let config = abc_config();
    assert_eq!(config.all_regex("[^]", "(^|\r\n)"), "([^]+)?(^|\r\n)a+b+c\r\n([^]+)?");
}

#[test]
fn decimal_digits() {
    let mut v = Vec::new();
    push_decimal(&mut v, 0);
    push_decimal(&mut v, 1207);
    assert_eq!(text(&v), "01207");
}
