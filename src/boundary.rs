//! Fragment boundaries: the literal that a path spells, where each
//! cumulative fragment regex ends on it, and the transition pairs of each
//! public fragment's slice of the path.
use vstd::prelude::*;
use vstd::string::*;
use vstd::utf8::encode_utf8;
use crate::defs::{SubstrDef, SubstrDefs};
use crate::error::VrmError;
use crate::graph::AutomatonGraph;
use crate::cycles::first_live_edge;

verus! {

#[verifier::external_type_specification]
#[verifier::external_body]
pub struct ExRegexError(fancy_regex::Error);

/// What `fancy_regex` reports for the first match of `pattern` in `text`:
/// `None` where compiling or searching fails, else the match's start and
/// end offsets and its text, if there is a match.
pub uninterp spec fn regex_first_match(pattern: Seq<char>, text: Seq<char>) -> Option<Option<(nat, nat, Seq<char>)>>;

/// Relies on `fancy_regex::Regex::new` and `Regex::find`: the first match,
/// as its byte offsets in `text` and the text between them (`Match::start`,
/// `Match::end`, `Match::as_str`).
#[verifier::external_body]
pub(crate) fn find_first_match(pattern: &str, text: &str) -> (r: Result<Option<(usize, usize, String)>, fancy_regex::Error>)
    ensures
        match r {
            Ok(Some(m)) => {
                &&& regex_first_match(pattern@, text@) == Some(Some((m.0 as nat, m.1 as nat, m.2@)))
                &&& m.0 <= m.1 <= encode_utf8(text@).len()
                &&& encode_utf8(m.2@) == encode_utf8(text@).subrange(m.0 as int, m.1 as int)
            },
            Ok(None) => regex_first_match(pattern@, text@) == Some(None::<(nat, nat, Seq<char>)>),
            Err(_) => regex_first_match(pattern@, text@) is None,
        },
{
    let re = fancy_regex::Regex::new(pattern)?;
    let found = re.find(text)?;
    Ok(found.map(|m| (m.start(), m.end(), m.as_str().to_string())))
}

/// The characters that stand for `bytes`, one each (`b as char`).
pub open spec fn byte_chars(bytes: Seq<u8>) -> Seq<char> {
    Seq::new(bytes.len(), |i: int| bytes[i] as char)
}

/// Relies on `String::push`: appends the character.
#[verifier::external_body]
fn push_char(s: &mut String, c: char)
    ensures
        final(s)@ == old(s)@.push(c),
{
    s.push(c)
}

/// The string of the characters that stand for `bytes`.
pub(crate) fn string_of_bytes(bytes: &Vec<u8>) -> (r: String)
    ensures
        r@ == byte_chars(bytes@),
{
    let mut r = String::new();
    let mut i: usize = 0;
    while i < bytes.len()
        invariant
            i <= bytes@.len(),
            r@ == byte_chars(bytes@.subrange(0, i as int)),
        decreases bytes.len() - i,
    {
        push_char(&mut r, bytes[i] as char);
        i += 1;
        assert(r@ =~= byte_chars(bytes@.subrange(0, i as int)));
    }
    assert(bytes@.subrange(0, i as int) =~= bytes@);
    r
}

/// The concatenation of the first `k` strings of `parts`.
pub open spec fn concat_upto(parts: Seq<Seq<char>>, k: int) -> Seq<char>
    decreases k,
{
    if k <= 0 {
        seq![]
    } else {
        concat_upto(parts, k - 1) + parts[k - 1]
    }
}

/// The cumulative regexes: the `k`-th is the concatenation of the
/// normalized fragments `0..=k`.
pub fn cumulative_patterns(formatted: &Vec<String>) -> (r: Vec<String>)
    ensures
        r@.len() == formatted@.len(),
        forall|k: int| 0 <= k < r@.len() ==> #[trigger] r@[k]@ == concat_upto(formatted@.map_values(|s: String| s@), k + 1),
{
    let ghost parts = formatted@.map_values(|s: String| s@);
    let mut out: Vec<String> = Vec::new();
    let mut acc = String::new();
    let mut k: usize = 0;
    while k < formatted.len()
        invariant
            k <= formatted@.len(),
            parts == formatted@.map_values(|s: String| s@),
            out@.len() == k,
            acc@ == concat_upto(parts, k as int),
            forall|m: int| 0 <= m < k ==> #[trigger] out@[m]@ == concat_upto(parts, m + 1),
        decreases formatted.len() - k,
    {
        acc.append(formatted[k].as_str());
        out.push(acc.clone());
        k += 1;
    }
    out
}

/// Where the fragment's slice of a path ends, given its regex's match: a
/// zero-width match is pushed one position forward.
pub open spec fn match_end(start: nat, end: nat) -> nat {
    if start == end { end + 1 } else { end }
}

pub fn boundary_end(start: usize, end: usize) -> (r: Option<usize>)
    ensures
        match r {
            Some(v) => v == match_end(start as nat, end as nat),
            None => match_end(start as nat, end as nat) > usize::MAX,
        },
{
    if start == end {
        if end == usize::MAX {
            None
        } else {
            Some(end + 1)
        }
    } else {
        Some(end)
    }
}

/// Where the slice of fragment `k` starts: where fragment `k - 1` ends.
pub open spec fn span_start(ends: Seq<usize>, k: int) -> int {
    if k == 0 { 0 } else { ends[k - 1] as int }
}

/// The slice of fragment `k` lies within the path's `len` states.
pub open spec fn span_ok(ends: Seq<usize>, k: int, len: nat) -> bool {
    span_start(ends, k) <= ends[k] < len
}

/// The pairs of consecutive states of `states[start..=end]`, the last one
/// tagged where the slice holds more than one pair.
pub open spec fn slice_pairs(states: Seq<usize>, start: int, end: int) -> Set<SubstrDef> {
    Set::new(|d: SubstrDef| exists|i: int| start <= i < end && d == #[trigger] slice_pair(states, start, end, i))
}

pub open spec fn slice_pair(states: Seq<usize>, start: int, end: int, i: int) -> SubstrDef {
    (states[i], states[i + 1], i == end - 1 && i > start)
}

/// Adds the pairs of `states[start..=end]` to `defs`.
fn insert_slice(defs: &mut SubstrDefs, states: &[usize], start: usize, end: usize)
    requires
        old(defs).wf(),
        start <= end < states@.len(),
    ensures
        final(defs).wf(),
        final(defs)@ == old(defs)@.union(slice_pairs(states@, start as int, end as int)),
{
    let mut i: usize = start;
    while i < end
        invariant
            start <= i <= end < states@.len(),
            defs.wf(),
            defs@ == old(defs)@.union(Set::new(|d: SubstrDef| exists|m: int| start <= m < i
                && d == #[trigger] slice_pair(states@, start as int, end as int, m))),
        decreases end - i,
    {
        let x: SubstrDef = (states[i], states[i + 1], i == end - 1 && i > start);
        assert(x == slice_pair(states@, start as int, end as int, i as int));
        let ghost before = defs@;
        defs.insert(x);
        proof {
            assert(defs@ =~= old(defs)@.union(Set::new(|d: SubstrDef| exists|m: int| start <= m < i + 1
                && d == #[trigger] slice_pair(states@, start as int, end as int, m)))) by {
                assert forall|d: SubstrDef| (exists|m: int| start <= m < i + 1
                    && d == #[trigger] slice_pair(states@, start as int, end as int, m)) implies
                    defs@.contains(d) by {
                    let m = choose|m: int| start <= m < i + 1 && d == #[trigger] slice_pair(states@, start as int, end as int, m);
                    if m < i {
                        assert(before.contains(d));
                    }
                }
            }
        }
        i += 1;
    }
    assert(defs@ =~= old(defs)@.union(slice_pairs(states@, start as int, end as int)));
}

/// `j` is the first public fragment whose slice does not lie within the path.
pub open spec fn first_bad_span(public: Seq<usize>, ends: Seq<usize>, len: nat, j: int) -> bool {
    &&& 0 <= j < public.len()
    &&& !span_ok(ends, public[j] as int, len)
    &&& forall|m: int| 0 <= m < j ==> span_ok(ends, #[trigger] public[m] as int, len)
}

/// Adds to the set of each public fragment the pairs of its slice of one
/// path. `path_states` is the path in forward order (start state first),
/// `index_ends[k]` where fragment `k`'s slice ends, and
/// `public_config_indexes[j]` the fragment whose set is
/// `substr_defs_array[j]`. Fails, changing nothing, where a slice does not
/// lie within the path.
pub fn add_substr_defs_from_path(
    substr_defs_array: &mut Vec<SubstrDefs>,
    path_states: &[usize],
    index_ends: &[usize],
    public_config_indexes: &[usize],
) -> (r: Result<(), VrmError>)
    requires
        old(substr_defs_array)@.len() == public_config_indexes@.len(),
        forall|j: int| 0 <= j < public_config_indexes@.len() ==> #[trigger] public_config_indexes@[j] < index_ends@.len(),
        forall|j: int| 0 <= j < old(substr_defs_array)@.len() ==> (#[trigger] old(substr_defs_array)@[j]).wf(),
    ensures
        final(substr_defs_array)@.len() == old(substr_defs_array)@.len(),
        forall|j: int| 0 <= j < final(substr_defs_array)@.len() ==> (#[trigger] final(substr_defs_array)@[j]).wf(),
        match r {
            Ok(()) => {
                &&& forall|j: int| 0 <= j < public_config_indexes@.len()
                    ==> span_ok(index_ends@, #[trigger] public_config_indexes@[j] as int, path_states@.len())
                &&& forall|j: int| 0 <= j < public_config_indexes@.len() ==> #[trigger] final(substr_defs_array)@[j]@
                    == old(substr_defs_array)@[j]@.union(slice_pairs(path_states@,
                        span_start(index_ends@, public_config_indexes@[j] as int),
                        index_ends@[public_config_indexes@[j] as int] as int))
            },
            Err(e) => {
                &&& final(substr_defs_array)@ == old(substr_defs_array)@
                &&& exists|j: int| #[trigger] first_bad_span(public_config_indexes@, index_ends@, path_states@.len(), j)
                    && e == VrmError::FragmentNotMatched(public_config_indexes@[j])
            },
        },
{
    let mut j: usize = 0;
    while j < public_config_indexes.len()
        invariant
            j <= public_config_indexes@.len(),
            forall|m: int| 0 <= m < public_config_indexes@.len() ==> #[trigger] public_config_indexes@[m] < index_ends@.len(),
            forall|m: int| 0 <= m < j ==> span_ok(index_ends@, #[trigger] public_config_indexes@[m] as int, path_states@.len()),
            substr_defs_array@ == old(substr_defs_array)@,
            forall|m: int| 0 <= m < old(substr_defs_array)@.len() ==> (#[trigger] old(substr_defs_array)@[m]).wf(),
        decreases public_config_indexes.len() - j,
    {
        let k = public_config_indexes[j];
        let start: usize = if k == 0 { 0 } else { index_ends[k - 1] };
        let end = index_ends[k];
        if !(start <= end && end < path_states.len()) {
            assert(first_bad_span(public_config_indexes@, index_ends@, path_states@.len(), j as int));
            return Err(VrmError::FragmentNotMatched(k));
        }
        j += 1;
    }
    let ghost old_defs = substr_defs_array@;
    let mut taken: Vec<SubstrDefs> = Vec::new();
    std::mem::swap(&mut taken, substr_defs_array);
    let mut j: usize = 0;
    while j < public_config_indexes.len()
        invariant
            j <= public_config_indexes@.len(),
            old_defs.len() == public_config_indexes@.len(),
            taken@ == old_defs.subrange(j as int, old_defs.len() as int),
            substr_defs_array@.len() == j,
            forall|m: int| 0 <= m < old_defs.len() ==> (#[trigger] old_defs[m]).wf(),
            forall|m: int| 0 <= m < public_config_indexes@.len() ==> #[trigger] public_config_indexes@[m] < index_ends@.len(),
            forall|m: int| 0 <= m < public_config_indexes@.len() ==> span_ok(index_ends@, #[trigger] public_config_indexes@[m] as int, path_states@.len()),
            forall|m: int| 0 <= m < j ==> (#[trigger] substr_defs_array@[m]).wf(),
            forall|m: int| 0 <= m < j ==> #[trigger] substr_defs_array@[m]@ == old_defs[m]@.union(slice_pairs(path_states@,
                span_start(index_ends@, public_config_indexes@[m] as int), index_ends@[public_config_indexes@[m] as int] as int)),
        decreases public_config_indexes.len() - j,
    {
        let k = public_config_indexes[j];
        let start: usize = if k == 0 { 0 } else { index_ends[k - 1] };
        let end = index_ends[k];
        assert(span_ok(index_ends@, k as int, path_states@.len()));
        let mut d = taken.remove(0);
        assert(d == old_defs[j as int]);
        insert_slice(&mut d, path_states, start, end);
        substr_defs_array.push(d);
        proof {
            assert(taken@ =~= old_defs.subrange(j + 1, old_defs.len() as int));
        }
        j += 1;
    }
    Ok(())
}

/// `s` is an end of an untagged pair of `set`.
pub open spec fn referenced(set: Set<SubstrDef>, s: usize) -> bool {
    exists|d: SubstrDef| #[trigger] set.contains(d) && !d.2 && (d.0 == s || d.1 == s)
}

/// The self pairs `(s, s)` of the recorded self-loop states that `set` references.
pub open spec fn self_pairs(set: Set<SubstrDef>, self_nodes: Seq<usize>) -> Set<SubstrDef> {
    Set::new(|d: SubstrDef| d.0 == d.1 && !d.2 && self_nodes.contains(d.0) && referenced(set, d.0))
}

fn references(defs: &SubstrDefs, s: usize) -> (r: bool)
    ensures
        r == referenced(defs@, s),
{
    let items = defs.items();
    let mut i: usize = 0;
    while i < items.len()
        invariant
            i <= items@.len(),
            items@ == defs.seq(),
            forall|m: int| 0 <= m < i ==> !(!(#[trigger] items@[m]).2 && (items@[m].0 == s || items@[m].1 == s)),
        decreases items.len() - i,
    {
        let d = items[i];
        if !d.2 && (d.0 == s || d.1 == s) {
            assert(defs@.contains(items@[i as int]));
            return true;
        }
        i += 1;
    }
    proof {
        if referenced(defs@, s) {
            let d = choose|d: SubstrDef| #[trigger] defs@.contains(d) && !d.2 && (d.0 == s || d.1 == s);
            let m = choose|m: int| 0 <= m < items@.len() && items@[m] == d;
        }
    }
    false
}

/// Adds the self pair of each recorded self-loop state that the set
/// already references through an untagged pair.
pub fn add_self_loops(defs: &mut SubstrDefs, self_nodes: &[usize])
    requires
        old(defs).wf(),
    ensures
        final(defs).wf(),
        final(defs)@ == old(defs)@.union(self_pairs(old(defs)@, self_nodes@)),
{
    let mut chosen: Vec<usize> = Vec::new();
    let mut i: usize = 0;
    while i < self_nodes.len()
        invariant
            i <= self_nodes@.len(),
            forall|m: int| 0 <= m < chosen@.len() ==> self_nodes@.contains(#[trigger] chosen@[m])
                && referenced(defs@, chosen@[m]),
            forall|m: int| 0 <= m < i && referenced(defs@, #[trigger] self_nodes@[m]) ==> chosen@.contains(self_nodes@[m]),
        decreases self_nodes.len() - i,
    {
        let s = self_nodes[i];
        let ghost chosen_before = chosen@;
        if references(defs, s) {
            chosen.push(s);
            assert(chosen@[chosen@.len() - 1] == s);
        }
        proof {
            assert forall|m: int| 0 <= m < i + 1 && referenced(defs@, #[trigger] self_nodes@[m]) implies chosen@.contains(self_nodes@[m]) by {
                if m < i {
                    let c = choose|c: int| 0 <= c < chosen_before.len() && chosen_before[c] == self_nodes@[m];
                    assert(chosen@[c] == chosen_before[c]);
                }
            }
        }
        i += 1;
    }
    let ghost orig = defs@;
    let mut k: usize = 0;
    while k < chosen.len()
        invariant
            k <= chosen@.len(),
            defs.wf(),
            defs@ == orig.union(Set::new(|d: SubstrDef| exists|m: int| 0 <= m < k && d == (#[trigger] chosen@[m], chosen@[m], false))),
        decreases chosen.len() - k,
    {
        let s = chosen[k];
        let ghost before = defs@;
        defs.insert((s, s, false));
        proof {
            assert(defs@ =~= orig.union(Set::new(|d: SubstrDef| exists|m: int| 0 <= m < k + 1 && d == (#[trigger] chosen@[m], chosen@[m], false)))) by {
                assert forall|d: SubstrDef| (exists|m: int| 0 <= m < k + 1 && d == (#[trigger] chosen@[m], chosen@[m], false)) implies defs@.contains(d) by {
                    let m = choose|m: int| 0 <= m < k + 1 && d == (#[trigger] chosen@[m], chosen@[m], false);
                    if m < k {
                        assert(before.contains(d));
                    }
                }
            }
        }
        k += 1;
    }
    proof {
        assert(defs@ =~= orig.union(self_pairs(orig, self_nodes@))) by {
            assert forall|d: SubstrDef| self_pairs(orig, self_nodes@).contains(d) implies defs@.contains(d) by {
                let m = choose|m: int| 0 <= m < self_nodes@.len() && self_nodes@[m] == d.0;
                assert(referenced(orig, self_nodes@[m]));
                let c = choose|c: int| 0 <= c < chosen@.len() && chosen@[c] == self_nodes@[m];
                assert(d == (chosen@[c], chosen@[c], false));
            }
            assert forall|d: SubstrDef| defs@.contains(d) && !orig.contains(d) implies self_pairs(orig, self_nodes@).contains(d) by {
                let m = choose|m: int| 0 <= m < k && d == (#[trigger] chosen@[m], chosen@[m], false);
            }
        }
    }
}

/// `lit` is the literal that the forward states `states` spell in `g`: for
/// each step, the first byte of the first present edge that retraces it.
pub open spec fn spells(g: AutomatonGraph, states: Seq<usize>, lit: Seq<u8>) -> bool {
    &&& lit.len() + 1 == states.len()
    &&& forall|i: int| 0 <= i < lit.len() ==> #[trigger] spells_step(g, states, lit, i)
}

/// Step `i` of the literal is the first byte of the first present edge that
/// retraces step `i` of `states`.
pub open spec fn spells_step(g: AutomatonGraph, states: Seq<usize>, lit: Seq<u8>, i: int) -> bool {
    exists|e: int| #[trigger] first_live_edge(g, e, states[i + 1] as int, states[i] as int)
        && lit[i] == g.edges@[e].label@[0]
}

/// The first byte of the first present edge from `a` to `b`.
pub open spec fn spelled_byte(g: AutomatonGraph, a: int, b: int) -> u8 {
    g.edges@[choose|e: int| first_live_edge(g, e, a, b)].label@[0]
}

/// The literal that the forward states `states` spell in `g`.
pub open spec fn spelled(g: AutomatonGraph, states: Seq<usize>) -> Seq<u8> {
    Seq::new((states.len() - 1) as nat, |i: int| spelled_byte(g, states[i + 1] as int, states[i] as int))
}

/// There is one literal that a sequence of states spells.
pub proof fn lemma_spells_unique(g: AutomatonGraph, states: Seq<usize>, lit: Seq<u8>)
    requires
        spells(g, states, lit),
    ensures
        lit == spelled(g, states),
{
    assert forall|i: int| 0 <= i < lit.len() implies lit[i] == #[trigger] spelled(g, states)[i] by {
        assert(spells_step(g, states, lit, i));
        let e = choose|e: int| #[trigger] first_live_edge(g, e, states[i + 1] as int, states[i] as int)
            && lit[i] == g.edges@[e].label@[0];
        let c = choose|c: int| #[trigger] first_live_edge(g, c, states[i + 1] as int, states[i] as int);
        if c < e {
            assert(!g.live_edge(c, states[i + 1] as int, states[i] as int));
        } else if e < c {
            assert(!g.live_edge(e, states[i + 1] as int, states[i] as int));
        }
    }
    assert(lit =~= spelled(g, states));
}

/// The cumulative regexes of the normalized fragments `formatted`.
pub open spec fn cumulative(formatted: Seq<Seq<char>>) -> Seq<Seq<char>> {
    Seq::new(formatted.len(), |k: int| concat_upto(formatted, k + 1))
}

/// Where each cumulative regex's slice ends on `text`.
pub open spec fn ends_on(patterns: Seq<Seq<char>>, text: Seq<char>) -> Seq<usize> {
    Seq::new(patterns.len(), |k: int| pattern_end(patterns[k], text) as usize)
}

/// The pairs that the path `p` (found backwards, from the accept state)
/// gives the `j`-th public fragment.
pub open spec fn path_fragment_pairs(
    g: AutomatonGraph,
    patterns: Seq<Seq<char>>,
    public: Seq<usize>,
    j: int,
    p: Seq<usize>,
) -> Set<SubstrDef> {
    let states = p.reverse();
    let ends = ends_on(patterns, byte_chars(spelled(g, states)));
    slice_pairs(states, span_start(ends, public[j] as int), ends[public[j] as int] as int)
}

/// The pairs that the first `n` of `paths` give the `j`-th public fragment.
pub open spec fn collected_pairs(
    g: AutomatonGraph,
    patterns: Seq<Seq<char>>,
    public: Seq<usize>,
    j: int,
    paths: Seq<Vec<usize>>,
    n: int,
) -> Set<SubstrDef> {
    Set::new(|x: SubstrDef| exists|k: int| 0 <= k < n && #[trigger] path_fragment_pairs(g, patterns, public, j, paths[k]@).contains(x))
}

/// Every step of `states` is retraced by a present edge of `g`.
pub open spec fn steps_present(g: AutomatonGraph, states: Seq<usize>) -> bool {
    forall|i: int| 0 <= i < states.len() - 1 ==> #[trigger] g.has_live_edge(states[i + 1] as int, states[i] as int)
}

/// The literal that a path spells, one representative byte per step;
/// `states` runs forward, from the start state.
pub fn path_literal(graph: &AutomatonGraph, states: &Vec<usize>) -> (r: Result<Vec<u8>, VrmError>)
    requires
        graph.wf(),
        graph.well_labeled(),
        states@.len() >= 1,
    ensures
        match r {
            Ok(lit) => steps_present(*graph, states@) && spells(*graph, states@, lit@),
            Err(e) => !steps_present(*graph, states@) && exists|i: int| 0 <= i < states@.len() - 1
                && !#[trigger] graph.has_live_edge(states@[i + 1] as int, states@[i] as int)
                && e == VrmError::NoEdge(states@[i + 1], states@[i]),
        },
{
    let mut lit: Vec<u8> = Vec::new();
    let mut i: usize = 0;
    while i < states.len() - 1
        invariant
            states@.len() >= 1,
            i + 1 <= states@.len(),
            graph.wf(),
            graph.well_labeled(),
            lit@.len() == i,
            forall|m: int| 0 <= m < i ==> #[trigger] graph.has_live_edge(states@[m + 1] as int, states@[m] as int),
            forall|m: int| 0 <= m < i ==> #[trigger] spells_step(*graph, states@, lit@, m),
        decreases states.len() - i,
    {
        match graph.find_edge(states[i + 1], states[i]) {
            Some(e) => {
                let ghost before = lit@;
                assert(first_live_edge(*graph, e as int, states@[i + 1 as int] as int, states@[i as int] as int));
                lit.push(graph.edges[e].label[0]);
                proof {
                    assert forall|m: int| 0 <= m < i + 1 implies #[trigger] spells_step(*graph, states@, lit@, m) by {
                        if m < i {
                            assert(spells_step(*graph, states@, before, m));
                            let w = choose|w: int| #[trigger] first_live_edge(*graph, w, states@[m + 1] as int, states@[m] as int)
                                && before[m] == graph.edges@[w].label@[0];
                            assert(lit@[m] == before[m]);
                        } else {
                            assert(lit@[m] == graph.edges@[e as int].label@[0]);
                        }
                    }
                }
            },
            None => {
                return Err(VrmError::NoEdge(states[i + 1], states[i]));
            },
        }
        i += 1;
    }
    Ok(lit)
}

/// `j` is the first cumulative regex that fails on `text`, or does not
/// match it, or matches it with an end that no position can hold.
pub open spec fn first_failing_pattern(patterns: Seq<String>, text: Seq<char>, j: int) -> bool {
    &&& 0 <= j < patterns.len()
    &&& !pattern_ends_ok(patterns[j]@, text)
    &&& forall|m: int| 0 <= m < j ==> pattern_ends_ok(#[trigger] patterns[m]@, text)
}

pub open spec fn pattern_ends_ok(pattern: Seq<char>, text: Seq<char>) -> bool {
    match regex_first_match(pattern, text) {
        Some(Some(m)) => match_end(m.0, m.1) <= usize::MAX,
        _ => false,
    }
}

/// Where the slice of the fragment whose cumulative regex is `pattern` ends on `text`.
pub open spec fn pattern_end(pattern: Seq<char>, text: Seq<char>) -> nat {
    match regex_first_match(pattern, text) {
        Some(Some(m)) => match_end(m.0, m.1),
        _ => 0,
    }
}

/// Where each cumulative regex's slice ends on `text`.
pub fn fragment_ends(patterns: &Vec<String>, text: &str) -> (r: Result<Vec<usize>, VrmError>)
    ensures
        match r {
            Ok(ends) => ends@.len() == patterns@.len() && forall|k: int| 0 <= k < patterns@.len() ==> {
                &&& #[trigger] pattern_ends_ok(patterns@[k]@, text@)
                &&& ends@[k] == pattern_end(patterns@[k]@, text@)
            },
            Err(e) => exists|j: int| #[trigger] first_failing_pattern(patterns@, text@, j)
                && e == (if regex_first_match(patterns@[j]@, text@) is None {
                    VrmError::RegexError(j as usize)
                } else {
                    VrmError::FragmentNotMatched(j as usize)
                }),
        },
{
    let mut ends: Vec<usize> = Vec::new();
    let mut k: usize = 0;
    while k < patterns.len()
        invariant
            k <= patterns@.len(),
            ends@.len() == k,
            forall|m: int| 0 <= m < k ==> {
                &&& #[trigger] pattern_ends_ok(patterns@[m]@, text@)
                &&& ends@[m] == pattern_end(patterns@[m]@, text@)
            },
        decreases patterns.len() - k,
    {
        match find_first_match(patterns[k].as_str(), text) {
            Ok(Some(m)) => {
                match boundary_end(m.0, m.1) {
                    Some(v) => ends.push(v),
                    None => {
                        assert(first_failing_pattern(patterns@, text@, k as int));
                        return Err(VrmError::FragmentNotMatched(k));
                    },
                }
            },
            Ok(None) => {
                assert(first_failing_pattern(patterns@, text@, k as int));
                return Err(VrmError::FragmentNotMatched(k));
            },
            Err(_) => {
                assert(first_failing_pattern(patterns@, text@, k as int));
                return Err(VrmError::RegexError(k));
            },
        }
        k += 1;
    }
    Ok(ends)
}

/// Within one path that repeats no state, and where the fragments' slices
/// end in non-decreasing order, no transition pair belongs to the slices of
/// two different fragments.
pub proof fn lemma_slices_disjoint(states: Seq<usize>, ends: Seq<usize>, k1: int, k2: int)
    requires
        states.no_duplicates(),
        0 <= k1 < k2 < ends.len(),
        forall|i: int, j: int| 0 <= i <= j < ends.len() ==> #[trigger] ends[i] <= #[trigger] ends[j],
        span_ok(ends, k1, states.len()),
        span_ok(ends, k2, states.len()),
    ensures
        forall|d1: SubstrDef, d2: SubstrDef|
            slice_pairs(states, span_start(ends, k1), ends[k1] as int).contains(d1)
            && slice_pairs(states, span_start(ends, k2), ends[k2] as int).contains(d2)
            ==> !(d1.0 == d2.0 && d1.1 == d2.1),
{
    assert forall|d1: SubstrDef, d2: SubstrDef|
        slice_pairs(states, span_start(ends, k1), ends[k1] as int).contains(d1)
        && slice_pairs(states, span_start(ends, k2), ends[k2] as int).contains(d2)
        implies !(d1.0 == d2.0 && d1.1 == d2.1) by {
        let i1 = choose|i: int| span_start(ends, k1) <= i < ends[k1] && d1 == #[trigger] slice_pair(states, span_start(ends, k1), ends[k1] as int, i);
        let i2 = choose|i: int| span_start(ends, k2) <= i < ends[k2] && d2 == #[trigger] slice_pair(states, span_start(ends, k2), ends[k2] as int, i);
        assert(ends[k1] <= ends[k2 - 1]);
        assert(i1 < i2);
        assert(states[i1] != states[i2]);
    }
}

} // verus!
