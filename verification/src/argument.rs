//! Typed argument leaves.  Each parses one whitespace-delimited token and
//! contributes a one-element tuple to the grammar's extraction.

use vstd::prelude::*;

use crate::parser::IterParser;

mod boolean;
mod choice;
mod numbers;
mod string_wildcard;
mod strings;

pub use choice::ChoiceParser;
pub use numbers::is_float_token;
pub use numbers::F32Parser;
pub use numbers::FloatToken;
pub use numbers::U32Parser;
pub use string_wildcard::StringWildcard;
pub use string_wildcard::StringWildcardParser;
pub use strings::StringParser;

pub use boolean::BoolParser;

verus! {

/// A type that can stand as a typed argument in a grammar: it names the
/// leaf parser that extracts exactly one value of the type.
pub trait Argument: DeepView + Sized {
    type Parser: IterParser<Extract = (Self,), ParserState = Self::ParserState> + Default;

    type ParserState: Default;
}

} // verus!
