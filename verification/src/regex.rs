//! The regular-expression engine behind dispatch: a regex front end, an
//! epsilon-closure NFA, subset construction with byte-class compression,
//! and the compact DFA the matcher runs on.

mod byteclass;
pub mod dfa;
pub mod early_termination;
mod nfa_to_dfa;
mod regex_to_nfa;
pub mod nfa;
pub mod stateid;

pub use byteclass::ByteClass;
pub use dfa::DfaState;
pub use dfa::DFA;
pub use early_termination::EarlyTermination;
pub use nfa::NFA;
pub use nfa_to_dfa::lemma_dfa_matches_nfa;
pub use nfa_to_dfa::lemma_find_associations;
pub use nfa_to_dfa::lemma_or_dfa_accepts_either;
pub use nfa_to_dfa::represents;
pub use regex_to_nfa::nfa_of_pattern;
pub use regex_to_nfa::regex_to_nfa;
pub use regex_to_nfa::we_support_regex;
pub use stateid::ByteClassId;
pub use stateid::StateId;
