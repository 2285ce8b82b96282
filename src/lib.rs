//! Compiles a decomposed regex definition (an ordered list of public and
//! private fragments) into the transition table of its automaton and, for
//! every public fragment, the set of transitions that belong to it.
//!
//! The automaton compiler and the fragment normalizer are supplied by the
//! caller: `DecomposedRegexConfig::all_regex` gives the pattern to compile,
//! and `DecomposedRegexConfig::gen_regex_files` takes the compiler's state
//! descriptions and the normalized fragments.
pub mod error;
pub mod text;
pub mod automaton;
pub mod graph;
pub mod cycles;
pub mod paths;
pub mod defs;
pub mod boundary;
pub mod config;
pub mod utils;

pub use automaton::{
    Automaton, AutomatonState, EdgeDesc, StateDesc, Transition, dfa_to_regex_def_text, get_accepted_state,
    get_max_state, parse_automaton,
};
pub use config::{DecomposedRegexConfig, RegexDefs, RegexPartConfig, SoldityType};
pub use defs::SubstrDefs;
pub use error::{JsCallerError, VrmError};
pub use graph::{AutomatonGraph, RevEdge, add_graph_nodes};
pub use utils::{get_email_circuit_public_hash_input, get_email_substrs, get_substr};
