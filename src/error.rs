use vstd::prelude::*;

verus! {

/// Failures of the automaton compiler and of the automaton description it returns.
#[derive(Debug, Clone, PartialEq, Eq)]
pub enum JsCallerError {
    /// The edges of the state with this index are not a mapping from
    /// well-formed byte-set keys to destinations.
    InvalidEdges(usize),
    /// A destination in the edges of the state with this index is not a state id.
    InvalidNodeValue(usize),
    /// No state carries the accept marker.
    NoAcceptedState,
    /// The compiler or the normalizer failed; the message it gave.
    JsError(String),
    /// The compiler's output is not well-formed JSON; the parser's message.
    JsonError(String),
}

/// Failures of one compilation run.
#[derive(Debug, Clone, PartialEq, Eq)]
pub enum VrmError {
    /// Reconstructing a path needs the transition between these two states
    /// (reversed orientation: from the first to the second), which the graph lacks.
    NoEdge(usize, usize),
    /// The automaton compiler or its output failed.
    JsCallerError(JsCallerError),
    /// The cumulative regex of the fragment with this index could not be
    /// compiled or searched.
    RegexError(usize),
    /// The cumulative regex of the fragment with this index did not match the
    /// literal of a path, or matched it beyond the path's end.
    FragmentNotMatched(usize),
}

} // verus!
