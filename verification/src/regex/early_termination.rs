//! The streaming matcher: feeds a DFA one byte at a time, reporting after
//! each byte whether any future can still accept and which associations the
//! current state carries, so a host can route on a unique prefix early.

use vstd::prelude::*;

use crate::regex::dfa::is_end;
use crate::regex::dfa::spec_transition;
use crate::regex::dfa::DFA;
use crate::regex::stateid::StateId;

verus! {

/// Whether some byte has a transition out of the walk's current state.
pub open spec fn can_move<A>(
    d: crate::regex::dfa::DfaView<A>,
    cur: Option<StateId>,
) -> bool {
    match cur {
        Some(id) => exists|b: u8| spec_transition(d, id.0 as int, b) is Some,
        None => false,
    }
}

/// A walk in progress: the current state, or nothing once the walk died.
pub struct EarlyTermination<'a, A> {
    dfa: &'a DFA<A>,
    current: Option<StateId>,
}

impl<'a, A> EarlyTermination<'a, A> {
    /// The automaton this walk runs on.
    pub closed spec fn spec_dfa(&self) -> &'a DFA<A> {
        self.dfa
    }

    /// The state the walk is in, if it is still alive.
    pub closed spec fn spec_current(&self) -> Option<StateId> {
        self.current
    }

    /// Starts a walk at state 0 (dead from the start on an empty DFA).
    pub fn new(dfa: &'a DFA<A>) -> (r: Self)
        ensures
            r.spec_dfa() == dfa,
            r.spec_current() == (if dfa@.states.len() > 0 {
                Some(StateId(0usize))
            } else {
                None::<StateId>
            }),
    {
        let current = if dfa.number_of_states() > 0 {
            Some(StateId::of(0))
        } else {
            None
        };
        EarlyTermination { dfa, current }
    }

    /// Consumes one byte; reports whether the walk is still alive.
    pub fn step(&mut self, b: u8) -> (alive: bool)
        ensures
            final(self).spec_dfa() == old(self).spec_dfa(),
            final(self).spec_current() == (match old(self).spec_current() {
                Some(id) => spec_transition(old(self).spec_dfa()@, id.0 as int, b),
                None => None::<StateId>,
            }),
            alive == (final(self).spec_current() is Some),
    {
        match self.current {
            Some(id) => {
                let next = self.dfa.transition(id, b);
                self.current = next;
            },
            None => {},
        }
        match self.current {
            Some(_) => true,
            None => false,
        }
    }

    /// Whether the walk stands in an accepting state right now.
    pub fn is_accepting(&self) -> (r: bool)
        ensures
            r == (match self.spec_current() {
                Some(id) => is_end(self.spec_dfa()@, id.0 as int),
                None => false,
            }),
    {
        match self.current {
            Some(id) => self.dfa.is_end_state(id),
            None => false,
        }
    }

    /// Whether any future byte can still move the walk: some byte has a
    /// transition out of the current state.
    pub fn can_continue(&self) -> (r: bool)
        ensures
            r == can_move(self.spec_dfa()@, self.spec_current()),
    {
        match self.current {
            Some(id) => {
                let mut b: usize = 0;
                while b < 256
                    invariant
                        0 <= b <= 256,
                        self.spec_current() == Some(id),
                        forall|c: u8|
                            (c as int) < b ==> !(spec_transition(
                                self.spec_dfa()@,
                                id.0 as int,
                                c,
                            ) is Some),
                    decreases 256 - b,
                {
                    match self.dfa.transition(id, b as u8) {
                        Some(_) => {
                            assert(spec_transition(self.spec_dfa()@, id.0 as int, b as u8) is Some);
                            assert(can_move(self.spec_dfa()@, self.spec_current()));
                            return true;
                        },
                        None => {},
                    }
                    b += 1;
                }
                false
            },
            None => false,
        }
    }

    /// The association set of the current state, while the walk is alive.
    pub fn associations(&self) -> (r: Option<&Vec<A>>)
        requires
            match self.spec_current() {
                Some(id) => (id.0 as int) < self.spec_dfa()@.states.len(),
                None => true,
            },
        ensures
            match self.spec_current() {
                Some(id) => r matches Some(v) && v@ == self.spec_dfa()@.states[id.0 as int].assoc,
                None => r is None,
            },
    {
        match self.current {
            Some(id) => Some(self.dfa.associations(id)),
            None => None,
        }
    }
}

} // verus!
