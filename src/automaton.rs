//! The compiled automaton: the compiler's raw per-state description, its
//! validation into plain states and transitions, and the all-states table.
use vstd::prelude::*;
use vstd::string::*;
use crate::error::JsCallerError;
use crate::text::{decimal, push_decimal};

verus! {

#[verifier::external_type_specification]
#[verifier::external_body]
pub struct ExJsonError(serde_json::Error);

/// What `serde_json::from_str::<Vec<String>>` yields for this text; `None`
/// where it reports an error.
pub uninterp spec fn json_string_list(text: Seq<char>) -> Option<Seq<Seq<char>>>;

/// Relies on `serde_json::from_str` decoding a JSON array of strings.
#[verifier::external_body]
fn decode_string_list(text: &str) -> (r: Result<Vec<String>, serde_json::Error>)
    ensures
        match r {
            Ok(v) => json_string_list(text@) == Some(v@.map_values(|s: String| s@)),
            Err(_) => json_string_list(text@) is None,
        },
{
    serde_json::from_str(text)
}

/// One entry of a state's edge mapping as the compiler wrote it: the key
/// (a JSON list of one-character strings) and the destination, where the
/// value is an unsigned integer.
#[derive(Debug, Clone)]
pub struct EdgeDesc {
    pub key: String,
    pub next: Option<u64>,
}

/// One state as the compiler wrote it: its `type` tag, where it is a
/// string, and its edge mapping, where it is an object.
#[derive(Debug, Clone)]
pub struct StateDesc {
    pub kind: Option<String>,
    pub edges: Option<Vec<EdgeDesc>>,
}

/// A transition of the automaton: the bytes that trigger it and its destination.
#[derive(Debug, Clone)]
pub struct Transition {
    pub label: Vec<u8>,
    pub next: usize,
}

/// A state of the automaton: whether it accepts, and its outgoing transitions.
#[derive(Debug, Clone)]
pub struct AutomatonState {
    pub accept: bool,
    pub transitions: Vec<Transition>,
}

/// The automaton; state `i` is `states[i]`, state 0 is the start.
#[derive(Debug, Clone)]
pub struct Automaton {
    pub states: Vec<AutomatonState>,
}

/// A one-character string whose character stands for a byte (code point below 256).
pub open spec fn is_byte_char(s: Seq<char>) -> bool {
    s.len() == 1 && (s[0] as u32) < 256
}

/// The bytes of a byte-set key: a non-empty JSON list of one-character
/// strings, each character standing for the byte of its code point.
pub open spec fn key_bytes(key: Seq<char>) -> Option<Seq<u8>> {
    match json_string_list(key) {
        None => None,
        Some(items) => if items.len() > 0 && forall|k: int| 0 <= k < items.len() ==> #[trigger] is_byte_char(items[k]) {
            Some(Seq::new(items.len(), |k: int| items[k][0] as u32 as u8))
        } else {
            None
        },
    }
}

/// The destination is a state id that a graph can hold a node for.
pub open spec fn next_ok(e: EdgeDesc) -> bool {
    e.next is Some && e.next->0 < usize::MAX
}

pub open spec fn edge_ok(e: EdgeDesc) -> bool {
    next_ok(e) && key_bytes(e.key@) is Some
}

pub open spec fn state_ok(s: StateDesc) -> bool {
    s.edges is Some && forall|j: int| 0 <= j < s.edges->0@.len() ==> #[trigger] edge_ok(s.edges->0@[j])
}

pub open spec fn description_ok(d: Seq<StateDesc>) -> bool {
    forall|i: int| 0 <= i < d.len() ==> #[trigger] state_ok(d[i])
}

/// `j` is the first malformed entry of `es`.
pub open spec fn first_bad_edge(es: Seq<EdgeDesc>, j: int) -> bool {
    0 <= j < es.len() && !edge_ok(es[j]) && forall|k: int| 0 <= k < j ==> #[trigger] edge_ok(es[k])
}

/// The error reported for state `i`, which is malformed.
pub open spec fn state_error(i: int, s: StateDesc) -> JsCallerError {
    if s.edges is None {
        JsCallerError::InvalidEdges(i as usize)
    } else if exists|j: int| first_bad_edge(s.edges->0@, j) && !next_ok(#[trigger] s.edges->0@[j]) {
        JsCallerError::InvalidNodeValue(i as usize)
    } else {
        JsCallerError::InvalidEdges(i as usize)
    }
}

/// `i` is the first malformed state of `d`.
pub open spec fn first_bad_state(d: Seq<StateDesc>, i: int) -> bool {
    0 <= i < d.len() && !state_ok(d[i]) && forall|k: int| 0 <= k < i ==> #[trigger] state_ok(d[k])
}

pub open spec fn is_accept_tag(kind: Option<String>) -> bool {
    kind is Some && kind->0@ == "accept"@
}

/// `a` is the automaton that the well-formed description `d` describes.
pub open spec fn describes(a: Automaton, d: Seq<StateDesc>) -> bool {
    &&& a.states@.len() == d.len()
    &&& forall|i: int| 0 <= i < d.len() ==> {
        let s = #[trigger] a.states@[i];
        let es = d[i].edges->0@;
        &&& s.accept == is_accept_tag(d[i].kind)
        &&& s.transitions@.len() == es.len()
        &&& forall|j: int| 0 <= j < es.len() ==> {
            &&& (#[trigger] s.transitions@[j]).label@ == key_bytes(es[j].key@)->0
            &&& s.transitions@[j].next == es[j].next->0 as usize
        }
    }
}

/// Decodes a byte-set key into its bytes.
pub fn decode_key(key: &str) -> (r: Option<Vec<u8>>)
    ensures
        match r {
            Some(v) => key_bytes(key@) == Some(v@),
            None => key_bytes(key@) is None,
        },
{
    let items = match decode_string_list(key) {
        Ok(items) => items,
        Err(_) => return None,
    };
    let ghost model = items@.map_values(|s: String| s@);
    if items.len() == 0 {
        return None;
    }
    let mut out: Vec<u8> = Vec::new();
    let mut k: usize = 0;
    while k < items.len()
        invariant
            k <= items.len(),
            json_string_list(key@) == Some(model),
            model == items@.map_values(|s: String| s@),
            out@.len() == k,
            forall|m: int| 0 <= m < k ==> #[trigger] is_byte_char(model[m]) && out@[m] == model[m][0] as u32 as u8,
        decreases items.len() - k,
    {
        let s = items[k].as_str();
        assert(s@ == model[k as int]);
        if s.unicode_len() != 1 {
            assert(!is_byte_char(model[k as int]));
            return None;
        }
        let c = s.get_char(0);
        if c as u32 >= 256 {
            assert(!is_byte_char(model[k as int]));
            return None;
        }
        let b = c as u32 as u8;
        assert(b == model[k as int][0] as u32 as u8);
        out.push(b);
        k += 1;
    }
    proof {
        assert forall|m: int| 0 <= m < model.len() implies out@[m] == #[trigger] model[m][0] as u32 as u8 by {
            assert(is_byte_char(model[m]));
        }
        assert(out@ =~= Seq::new(model.len(), |m: int| model[m][0] as u32 as u8));
    }
    Some(out)
}

/// Whether a `type` tag marks the accept state.
fn is_accept(kind: &Option<String>) -> (r: bool)
    ensures
        r == is_accept_tag(*kind),
{
    match kind {
        Some(k) => {
            let tag = String::from_str("accept");
            *k == tag
        },
        None => false,
    }
}

/// Validates one state's description, at index `i`.
fn parse_state(i: usize, s: &StateDesc) -> (r: Result<AutomatonState, JsCallerError>)
    ensures
        match r {
            Ok(st) => state_ok(*s) && st.accept == is_accept_tag(s.kind)
                && st.transitions@.len() == s.edges->0@.len()
                && forall|j: int| 0 <= j < s.edges->0@.len() ==> {
                    &&& (#[trigger] st.transitions@[j]).label@ == key_bytes(s.edges->0@[j].key@)->0
                    &&& st.transitions@[j].next == s.edges->0@[j].next->0 as usize
                },
            Err(e) => !state_ok(*s) && e == state_error(i as int, *s),
        },
{
    let accept = is_accept(&s.kind);
    let edges = match &s.edges {
        Some(es) => es,
        None => return Err(JsCallerError::InvalidEdges(i)),
    };
    let mut transitions: Vec<Transition> = Vec::new();
    let mut j: usize = 0;
    while j < edges.len()
        invariant
            j <= edges.len(),
            s.edges == Some(*edges),
            transitions@.len() == j,
            forall|m: int| 0 <= m < j ==> #[trigger] edge_ok(edges@[m]),
            forall|m: int| 0 <= m < j ==> {
                &&& (#[trigger] transitions@[m]).label@ == key_bytes(edges@[m].key@)->0
                &&& transitions@[m].next == edges@[m].next->0 as usize
            },
        decreases edges.len() - j,
    {
        let e = &edges[j];
        let next: usize = match e.next {
            Some(n) => {
                if n >= usize::MAX as u64 {
                    assert(first_bad_edge(edges@, j as int) && !next_ok(edges@[j as int]));
                    return Err(JsCallerError::InvalidNodeValue(i));
                }
                n as usize
            },
            None => {
                assert(first_bad_edge(edges@, j as int) && !next_ok(edges@[j as int]));
                return Err(JsCallerError::InvalidNodeValue(i));
            },
        };
        let label = match decode_key(e.key.as_str()) {
            Some(l) => l,
            None => {
                proof {
                    assert(first_bad_edge(edges@, j as int));
                    assert forall|j2: int| first_bad_edge(edges@, j2) implies next_ok(#[trigger] edges@[j2]) by {
                        if j2 > j {
                            assert(edge_ok(edges@[j as int]));
                        }
                    }
                }
                return Err(JsCallerError::InvalidEdges(i));
            },
        };
        transitions.push(Transition { label, next });
        j += 1;
    }
    Ok(AutomatonState { accept, transitions })
}

/// Validates the compiler's description of every state.
pub fn parse_automaton(dfa: &[StateDesc]) -> (r: Result<Automaton, JsCallerError>)
    ensures
        match r {
            Ok(a) => description_ok(dfa@) && describes(a, dfa@) && a.well_labeled(),
            Err(e) => !description_ok(dfa@) && exists|i: int| #[trigger] first_bad_state(dfa@, i)
                && e == state_error(i, dfa@[i]),
        },
{
    let mut states: Vec<AutomatonState> = Vec::new();
    let mut i: usize = 0;
    while i < dfa.len()
        invariant
            i <= dfa@.len(),
            states@.len() == i,
            forall|k: int| 0 <= k < i ==> #[trigger] state_ok(dfa@[k]),
            forall|k: int| 0 <= k < i ==> {
                let st = #[trigger] states@[k];
                let es = dfa@[k].edges->0@;
                &&& st.accept == is_accept_tag(dfa@[k].kind)
                &&& st.transitions@.len() == es.len()
                &&& forall|j: int| 0 <= j < es.len() ==> {
                    &&& (#[trigger] st.transitions@[j]).label@ == key_bytes(es[j].key@)->0
                    &&& st.transitions@[j].next == es[j].next->0 as usize
                }
            },
        decreases dfa.len() - i,
    {
        match parse_state(i, &dfa[i]) {
            Ok(st) => {
                states.push(st);
            },
            Err(e) => {
                assert(first_bad_state(dfa@, i as int));
                return Err(e);
            },
        }
        i += 1;
    }
    let a = Automaton { states };
    proof {
        assert forall|i: int, j: int| 0 <= i < a.states@.len() && 0 <= j < a.states@[i].transitions@.len() implies {
            &&& (#[trigger] a.states@[i].transitions@[j]).label@.len() > 0
            &&& a.states@[i].transitions@[j].next < usize::MAX
        } by {
            assert(state_ok(dfa@[i]));
            let e = dfa@[i].edges->0@[j];
            assert(edge_ok(e));
            let items = json_string_list(e.key@)->0;
            assert(key_bytes(e.key@)->0.len() == items.len());
        }
    }
    Ok(a)
}

/// The first accepting state among `states`.
pub open spec fn accepted_state(states: Seq<AutomatonState>) -> Option<nat>
    decreases states.len(),
{
    if states.len() == 0 {
        None
    } else {
        match accepted_state(states.drop_last()) {
            Some(i) => Some(i),
            None => if states.last().accept {
                Some((states.len() - 1) as nat)
            } else {
                None
            },
        }
    }
}

/// The largest destination among `ts`, or `m` where that is larger.
pub open spec fn max_next(ts: Seq<Transition>, m: nat) -> nat
    decreases ts.len(),
{
    if ts.len() == 0 {
        m
    } else {
        let r = max_next(ts.drop_last(), m);
        if ts.last().next > r {
            ts.last().next as nat
        } else {
            r
        }
    }
}

/// The largest destination of any transition of `states`, or 0.
pub open spec fn max_state(states: Seq<AutomatonState>) -> nat
    decreases states.len(),
{
    if states.len() == 0 {
        0
    } else {
        max_next(states.last().transitions@, max_state(states.drop_last()))
    }
}

/// One line `<from> <to> <byte>` for each byte of `label`.
pub open spec fn label_lines(from: nat, to: nat, label: Seq<u8>) -> Seq<u8>
    decreases label.len(),
{
    if label.len() == 0 {
        seq![]
    } else {
        label_lines(from, to, label.drop_last()) + decimal(from) + seq![32u8] + decimal(to)
            + seq![32u8] + decimal(label.last() as nat) + seq![10u8]
    }
}

/// The lines of the transitions `ts` of state `from`.
pub open spec fn transition_lines(from: nat, ts: Seq<Transition>) -> Seq<u8>
    decreases ts.len(),
{
    if ts.len() == 0 {
        seq![]
    } else {
        transition_lines(from, ts.drop_last()) + label_lines(from, ts.last().next as nat, ts.last().label@)
    }
}

/// The lines of every transition of `states`, state by state.
pub open spec fn state_lines(states: Seq<AutomatonState>) -> Seq<u8>
    decreases states.len(),
{
    if states.len() == 0 {
        seq![]
    } else {
        state_lines(states.drop_last()) + transition_lines((states.len() - 1) as nat, states.last().transitions@)
    }
}

/// The all-states table: start state, accept state, largest state, then the
/// transitions one byte per line.
pub open spec fn all_states_text(states: Seq<AutomatonState>, accept: nat) -> Seq<u8> {
    seq![48u8, 10u8] + decimal(accept) + seq![10u8] + decimal(max_state(states)) + seq![10u8]
        + state_lines(states)
}

impl Automaton {
    /// Every transition has at least one byte and a destination below `usize::MAX`.
    pub open spec fn well_labeled(&self) -> bool {
        forall|i: int, j: int| 0 <= i < self.states@.len() && 0 <= j < self.states@[i].transitions@.len() ==> {
            &&& (#[trigger] self.states@[i].transitions@[j]).label@.len() > 0
            &&& self.states@[i].transitions@[j].next < usize::MAX
        }
    }
}

/// The first state that carries the accept marker.
pub fn get_accepted_state(dfa: &Automaton) -> (r: Option<usize>)
    ensures
        match r {
            Some(i) => accepted_state(dfa.states@) == Some(i as nat),
            None => accepted_state(dfa.states@) is None,
        },
{
    let mut i: usize = 0;
    while i < dfa.states.len()
        invariant
            i <= dfa.states@.len(),
            accepted_state(dfa.states@.subrange(0, i as int)) is None,
        decreases dfa.states.len() - i,
    {
        assert(dfa.states@.subrange(0, i + 1).drop_last() =~= dfa.states@.subrange(0, i as int));
        if dfa.states[i].accept {
            proof { lemma_accepted_prefix(dfa.states@, i as int + 1); }
            return Some(i);
        }
        i += 1;
    }
    assert(dfa.states@.subrange(0, i as int) =~= dfa.states@);
    None
}

/// A prefix that already holds an accepting state decides the first one.
proof fn lemma_accepted_prefix(states: Seq<AutomatonState>, n: int)
    requires
        0 <= n <= states.len(),
        accepted_state(states.subrange(0, n)) is Some,
    ensures
        accepted_state(states) == accepted_state(states.subrange(0, n)),
    decreases states.len() - n,
{
    if n < states.len() {
        assert(states.subrange(0, n + 1).drop_last() =~= states.subrange(0, n));
        lemma_accepted_prefix(states, n + 1);
    } else {
        assert(states.subrange(0, n) =~= states);
    }
}

/// The largest destination state named by any transition, or 0.
pub fn get_max_state(dfa: &Automaton) -> (r: usize)
    ensures
        r == max_state(dfa.states@),
{
    let mut m: usize = 0;
    let mut i: usize = 0;
    while i < dfa.states.len()
        invariant
            i <= dfa.states@.len(),
            m == max_state(dfa.states@.subrange(0, i as int)),
        decreases dfa.states.len() - i,
    {
        let ts = &dfa.states[i].transitions;
        let ghost base = m;
        let mut j: usize = 0;
        while j < ts.len()
            invariant
                j <= ts@.len(),
                m == max_next(ts@.subrange(0, j as int), base as nat),
            decreases ts.len() - j,
        {
            assert(ts@.subrange(0, j + 1).drop_last() =~= ts@.subrange(0, j as int));
            if ts[j].next > m {
                m = ts[j].next;
            }
            j += 1;
        }
        assert(ts@.subrange(0, j as int) =~= ts@);
        assert(dfa.states@.subrange(0, i + 1).drop_last() =~= dfa.states@.subrange(0, i as int));
        i += 1;
    }
    assert(dfa.states@.subrange(0, i as int) =~= dfa.states@);
    m
}

/// Appends the lines of one transition.
fn push_label_lines(out: &mut Vec<u8>, from: usize, t: &Transition)
    ensures
        final(out)@ == old(out)@ + label_lines(from as nat, t.next as nat, t.label@),
{
    let mut k: usize = 0;
    while k < t.label.len()
        invariant
            k <= t.label@.len(),
            out@ == old(out)@ + label_lines(from as nat, t.next as nat, t.label@.subrange(0, k as int)),
        decreases t.label.len() - k,
    {
        let ghost before = out@;
        push_decimal(out, from);
        out.push(32u8);
        push_decimal(out, t.next);
        out.push(32u8);
        push_decimal(out, t.label[k] as usize);
        out.push(10u8);
        proof {
            let l = t.label@.subrange(0, k + 1);
            assert(l.drop_last() =~= t.label@.subrange(0, k as int));
            assert(out@ =~= old(out)@ + label_lines(from as nat, t.next as nat, l));
        }
        k += 1;
    }
    assert(t.label@.subrange(0, k as int) =~= t.label@);
}

/// The all-states table of the automaton.
pub fn dfa_to_regex_def_text(dfa: &Automaton) -> (r: Result<Vec<u8>, JsCallerError>)
    ensures
        match r {
            Ok(text) => accepted_state(dfa.states@) is Some
                && text@ == all_states_text(dfa.states@, accepted_state(dfa.states@)->0),
            Err(e) => accepted_state(dfa.states@) is None && e == JsCallerError::NoAcceptedState,
        },
{
    let accepted = match get_accepted_state(dfa) {
        Some(a) => a,
        None => return Err(JsCallerError::NoAcceptedState),
    };
    let max = get_max_state(dfa);
    let mut text: Vec<u8> = Vec::new();
    text.push(48u8);
    text.push(10u8);
    push_decimal(&mut text, accepted);
    text.push(10u8);
    push_decimal(&mut text, max);
    text.push(10u8);
    let ghost head = text@;
    let mut i: usize = 0;
    while i < dfa.states.len()
        invariant
            i <= dfa.states@.len(),
            text@ == head + state_lines(dfa.states@.subrange(0, i as int)),
        decreases dfa.states.len() - i,
    {
        let ts = &dfa.states[i].transitions;
        let ghost before = text@;
        let mut j: usize = 0;
        while j < ts.len()
            invariant
                j <= ts@.len(),
                text@ == before + transition_lines(i as nat, ts@.subrange(0, j as int)),
            decreases ts.len() - j,
        {
            push_label_lines(&mut text, i, &ts[j]);
            proof {
                assert(ts@.subrange(0, j + 1).drop_last() =~= ts@.subrange(0, j as int));
                assert(text@ =~= before + transition_lines(i as nat, ts@.subrange(0, j + 1)));
            }
            j += 1;
        }
        proof {
            assert(ts@.subrange(0, j as int) =~= ts@);
            let p = dfa.states@.subrange(0, i + 1);
            assert(p.drop_last() =~= dfa.states@.subrange(0, i as int));
            assert(text@ =~= head + state_lines(p));
        }
        i += 1;
    }
    proof {
        assert(dfa.states@.subrange(0, i as int) =~= dfa.states@);
        assert(text@ =~= all_states_text(dfa.states@, accepted as nat));
    }
    Ok(text)
}

} // verus!
