//! The boolean argument leaf: accepts exactly the tokens `true` and
//! `false`.

use vstd::prelude::*;
use vstd::string::StrSliceExecFns;
use vstd::string::StringExecFns;

use crate::argument::Argument;
use crate::error::ParseError;
use crate::parser::IterParser;
use crate::parser::SpecParsed;
use crate::scan;

verus! {

#[derive(Default)]
pub struct BoolParser;

/// The token `true`, as characters.
pub open spec fn true_chars() -> Seq<char> {
    seq!['t', 'r', 'u', 'e']
}

/// The token `false`, as characters.
pub open spec fn false_chars() -> Seq<char> {
    seq!['f', 'a', 'l', 's', 'e']
}

impl IterParser for BoolParser {
    type Extract = (bool, );

    type ParserState = ();

    open spec fn spec_parse(&self, state: (), input: Seq<char>) -> SpecParsed<(bool, ), ()> {
        let t = scan::trimmed(input);
        if t.len() == 0 {
            (Err(ParseError::EmptyInput), None)
        } else {
            let e = scan::token_end(t);
            let tok = t.subrange(0, e);
            let rest = t.subrange(e, t.len() as int);
            if tok == true_chars() {
                (Ok(((true, ), rest)), None)
            } else if tok == false_chars() {
                (Ok(((false, ), rest)), None)
            } else {
                (Err(ParseError::BadToken), None)
            }
        }
    }

    open spec fn spec_initial(&self) -> () {
        ()
    }

    open spec fn spec_regex(&self) -> Seq<char> {
        seq!['(', 't', 'r', 'u', 'e', '|', 'f', 'a', 'l', 's', 'e', ')']
    }

    fn parse<'p>(&self, state: (), input: &'p str) -> (r: (Result<
        ((bool, ), &'p str),
        ParseError,
    >, Option<()>)) {
        let t = scan::trim(input);
        let tlen = t.unicode_len();
        if tlen == 0 {
            return (Err(ParseError::EmptyInput), None);
        }
        let e = scan::find_token_end(t);
        let tok = t.substring_char(0, e);
        let rest = t.substring_char(e, tlen);
        if scan::str_eq(tok, "true") {
            proof {
                reveal_strlit("true");
                assert("true"@ =~= true_chars());
            }
            (Ok(((true, ), rest)), None)
        } else if scan::str_eq(tok, "false") {
            proof {
                reveal_strlit("false");
                assert("false"@ =~= false_chars());
            }
            (Ok(((false, ), rest)), None)
        } else {
            proof {
                reveal_strlit("true");
                reveal_strlit("false");
                assert("true"@ =~= true_chars());
                assert("false"@ =~= false_chars());
            }
            (Err(ParseError::BadToken), None)
        }
    }

    fn initial_state(&self) -> (s: ()) {
        ()
    }

    fn regex(&self) -> (r: String) {
        let s = String::from_str("(true|false)");
        proof {
            reveal_strlit("(true|false)");
            assert(s@ =~= self.spec_regex());
        }
        s
    }
}

impl Argument for bool {
    type Parser = BoolParser;

    type ParserState = ();
}

} // verus!
