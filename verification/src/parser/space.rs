//! Whitespace fragments: mandatory whitespace, and optional whitespace with
//! an optional end-of-input guard.

use vstd::prelude::*;
use vstd::string::StringExecFns;

use crate::error::ParseError;
use crate::parser::IterParser;
use crate::parser::SpecParsed;
use crate::scan;

verus! {

/// The state of a fragment that offers exactly one attempt.
#[derive(Debug, Clone, Copy)]
pub enum OnceState {
    More,
    Done,
}

impl Default for OnceState {
    fn default() -> (r: Self) {
        OnceState::More
    }
}

/// Consumes leading whitespace and fails when there was none.
pub struct OneOrMoreSpace;

/// Consumes leading whitespace unconditionally.  With
/// `nothing_should_follow` set it acts as the end guard of a closed grammar:
/// it fails unless the rest of the input was whitespace only.
pub struct MaybeSpaces {
    pub nothing_should_follow: bool,
}

impl MaybeSpaces {
    /// An optional-whitespace fragment without the end guard.
    pub fn new() -> (r: Self)
        ensures
            !r.nothing_should_follow,
    {
        Self { nothing_should_follow: false }
    }
}

impl OneOrMoreSpace {
    pub fn new() -> (r: Self) {
        Self {  }
    }
}

impl Default for OneOrMoreSpace {
    fn default() -> (r: Self) {
        Self::new()
    }
}

impl Default for MaybeSpaces {
    fn default() -> (r: Self)
        ensures
            !r.nothing_should_follow,
    {
        Self::new()
    }
}

impl IterParser for OneOrMoreSpace {
    type Extract = ();

    type ParserState = ();

    open spec fn spec_parse(&self, state: (), input: Seq<char>) -> SpecParsed<(), ()> {
        if input.len() == 0 {
            (Err(ParseError::EmptyInput), None)
        } else if scan::trimmed_start(input).len() == input.len() {
            (Err(ParseError::BadToken), None)
        } else {
            (Ok(((), scan::trimmed_start(input))), None)
        }
    }

    open spec fn spec_initial(&self) -> () {
        ()
    }

    open spec fn spec_regex(&self) -> Seq<char> {
        seq!['\\', 's', '+']
    }

    fn parse<'p>(&self, state: (), input: &'p str) -> (r: (Result<((), &'p str), ParseError>, Option<
        (),
    >)) {
        let before_len = input.unicode_len();
        if before_len == 0 {
            return (Err(ParseError::EmptyInput), None);
        }
        let out = scan::trim_start(input);
        if out.unicode_len() == before_len {
            (Err(ParseError::BadToken), None)
        } else {
            (Ok(((), out)), None)
        }
    }

    fn initial_state(&self) -> (s: ()) {
        ()
    }

    fn regex(&self) -> (r: String) {
        let s = String::from_str("\\s+");
        proof {
            reveal_strlit("\\s+");
            assert(s@ =~= self.spec_regex());
        }
        s
    }
}

impl IterParser for MaybeSpaces {
    type Extract = ();

    type ParserState = ();

    open spec fn spec_parse(&self, state: (), input: Seq<char>) -> SpecParsed<(), ()> {
        let out = scan::trimmed_start(input);
        if self.nothing_should_follow && out.len() > 0 {
            (Err(ParseError::TrailingInput), None)
        } else {
            (Ok(((), out)), None)
        }
    }

    open spec fn spec_initial(&self) -> () {
        ()
    }

    open spec fn spec_regex(&self) -> Seq<char> {
        seq!['\\', 's', '*']
    }

    fn parse<'p>(&self, state: (), input: &'p str) -> (r: (Result<((), &'p str), ParseError>, Option<
        (),
    >)) {
        let out = scan::trim_start(input);
        if self.nothing_should_follow && out.unicode_len() > 0 {
            (Err(ParseError::TrailingInput), None)
        } else {
            (Ok(((), out)), None)
        }
    }

    fn initial_state(&self) -> (s: ()) {
        ()
    }

    fn regex(&self) -> (r: String) {
        let s = String::from_str("\\s*");
        proof {
            reveal_strlit("\\s*");
            assert(s@ =~= self.spec_regex());
        }
        s
    }
}

} // verus!
