//! Dense identifiers for NFA/DFA states and for byte classes.

use vstd::prelude::*;

verus! {

/// The index of a state in an NFA or DFA.
#[derive(Clone, Copy, Debug, Default, PartialEq, Eq, Structural, Hash)]
pub struct StateId(pub usize);

impl StateId {
    pub fn of(value: usize) -> (r: Self)
        ensures
            r.0 == value,
    {
        StateId(value)
    }
}

/// The index of a byte class in a DFA's deduplicated pool.
#[derive(Clone, Copy, Debug, Default, PartialEq, Eq, Structural, Hash)]
pub struct ByteClassId(pub usize);

} // verus!
