//! The identifier-string argument leaf: one greedy run of non-space
//! characters.

use vstd::prelude::*;
use vstd::string::StrSliceExecFns;
use vstd::string::StringExecFns;

use crate::argument::Argument;
use crate::error::ParseError;
use crate::parser::IterParser;
use crate::parser::SpecParsed;
use crate::scan;

verus! {

#[derive(Default)]
pub struct StringParser {}

impl IterParser for StringParser {
    type Extract = (String,);

    type ParserState = ();

    open spec fn spec_parse(&self, state: (), input: Seq<char>) -> SpecParsed<(Seq<char>,), ()> {
        let t = scan::trimmed(input);
        if t.len() == 0 {
            (Err(ParseError::EmptyInput), None)
        } else {
            let e = scan::token_end(t);
            (Ok(((t.subrange(0, e),), t.subrange(e, t.len() as int))), None)
        }
    }

    open spec fn spec_initial(&self) -> () {
        ()
    }

    open spec fn spec_regex(&self) -> Seq<char> {
        seq!['\\', 'S', '+']
    }

    fn parse<'p>(&self, state: (), input: &'p str) -> (r: (Result<
        ((String,), &'p str),
        ParseError,
    >, Option<()>)) {
        let t = scan::trim(input);
        let tlen = t.unicode_len();
        if tlen == 0 {
            return (Err(ParseError::EmptyInput), None);
        }
        let e = scan::find_token_end(t);
        let tok = t.substring_char(0, e);
        let rest = t.substring_char(e, tlen);
        (Ok(((tok.to_owned(),), rest)), None)
    }

    fn initial_state(&self) -> (s: ()) {
        ()
    }

    fn regex(&self) -> (r: String) {
        let s = String::from_str("\\S+");
        proof {
            reveal_strlit("\\S+");
            assert(s@ =~= self.spec_regex());
        }
        s
    }
}

impl Argument for String {
    type Parser = StringParser;

    type ParserState = ();
}

} // verus!
