//! The wildcard argument leaf: the entire trimmed remainder of the input,
//! spaces and all.

use vstd::prelude::*;
use vstd::string::StrSliceExecFns;
use vstd::string::StringExecFns;

use crate::argument::Argument;
use crate::error::ParseError;
use crate::parser::IterParser;
use crate::parser::SpecParsed;
use crate::scan;

verus! {

/// The rest of a command line, captured verbatim (after trimming the
/// surrounding whitespace).
#[derive(Debug, Clone)]
pub struct StringWildcard {
    wildcard: String,
}

impl View for StringWildcard {
    type V = Seq<char>;

    closed spec fn view(&self) -> Seq<char> {
        self.wildcard@
    }
}

impl DeepView for StringWildcard {
    type V = Seq<char>;

    open spec fn deep_view(&self) -> Seq<char> {
        self@
    }
}

impl StringWildcard {
    pub fn new(wildcard: String) -> (r: Self)
        ensures
            r@ == wildcard@,
    {
        Self { wildcard }
    }

    pub fn get(&self) -> (r: &str)
        ensures
            r@ == self@,
    {
        self.wildcard.as_str()
    }

    /// Replaces the captured text.
    pub fn get_mut(&mut self, wildcard: String)
        ensures
            final(self)@ == wildcard@,
    {
        self.wildcard = wildcard;
    }
}

#[derive(Default)]
pub struct StringWildcardParser {}

impl IterParser for StringWildcardParser {
    type Extract = (StringWildcard,);

    type ParserState = ();

    open spec fn spec_parse(&self, state: (), input: Seq<char>) -> SpecParsed<(Seq<char>,), ()> {
        let t = scan::trimmed(input);
        if t.len() == 0 {
            (Err(ParseError::EmptyInput), None)
        } else {
            (Ok(((t,), Seq::empty())), None)
        }
    }

    open spec fn spec_initial(&self) -> () {
        ()
    }

    open spec fn spec_regex(&self) -> Seq<char> {
        seq!['.', '*']
    }

    fn parse<'p>(&self, state: (), input: &'p str) -> (r: (Result<
        ((StringWildcard,), &'p str),
        ParseError,
    >, Option<()>)) {
        let t = scan::trim(input);
        if t.unicode_len() == 0 {
            return (Err(ParseError::EmptyInput), None);
        }
        let empty = "";
        proof {
            reveal_strlit("");
            assert(empty@ =~= Seq::<char>::empty());
        }
        (Ok(((StringWildcard { wildcard: t.to_owned() },), empty)), None)
    }

    fn initial_state(&self) -> (s: ()) {
        ()
    }

    fn regex(&self) -> (r: String) {
        let s = String::from_str(".*");
        proof {
            reveal_strlit(".*");
            assert(s@ =~= self.spec_regex());
        }
        s
    }
}

impl Argument for StringWildcard {
    type Parser = StringWildcardParser;

    type ParserState = ();
}

} // verus!
