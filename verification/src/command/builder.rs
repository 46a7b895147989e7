//! The fluent grammar builder: every call appends a fragment and enriches
//! the extraction tuple; `on_call` closes the grammar with an end guard and
//! binds the handler.

use core::marker::PhantomData;

use vstd::prelude::*;
use vstd::string::StringExecFns;

use crate::argument::Argument;
use crate::argument::ChoiceParser;
use crate::command::CommandSpec;
use crate::generic::ExtractConcat;
use crate::generic::Func;
use crate::parser::And;
use crate::parser::IterParser;
use crate::parser::Literal;
use crate::parser::MaybeSpaces;
use crate::parser::OneOrMoreSpace;
use crate::parser::Opt;

verus! {

/// A fragment demanding at least one whitespace character.
pub fn space() -> OneOrMoreSpace {
    OneOrMoreSpace
}

/// Begins a grammar with an exact keyword, conventionally `/name`.
pub fn literal(value: &str) -> (r: Literal)
    ensures
        r.value@ == value@,
{
    Literal { value: String::from_str(value) }
}

/// The fluent surface every grammar fragment offers.
pub trait CommandBuilder: Sized where
    <Self::Parser as IterParser>::Extract: ExtractConcat<()>,
    <Self::Parser as IterParser>::ParserState: Copy,
 {
    type Parser: IterParser;

    /// The builder, seen as the grammar fragment built so far.
    spec fn as_parser(&self) -> Self::Parser;

    /// Appends a typed argument.
    fn arg<A: Argument>(self) -> (r: And<Self::Parser, A::Parser>)
        ensures
            r.a == self.as_parser(),
    ;

    /// Appends mandatory whitespace.
    fn space(self) -> (r: And<Self::Parser, OneOrMoreSpace>)
        ensures
            r.a == self.as_parser(),
    ;

    /// Appends optional whitespace.
    fn opt_space(self) -> (r: And<Self::Parser, MaybeSpaces>)
        ensures
            r.a == self.as_parser(),
            !r.b.nothing_should_follow,
    ;

    /// Appends an exact string.
    fn literal(self, value: &str) -> (r: And<Self::Parser, Literal>)
        ensures
            r.a == self.as_parser(),
            r.b.value@ == value@,
    ;

    /// Appends an optional typed argument.
    fn opt_arg<A: Argument>(self) -> (r: And<Self::Parser, Opt<A::Parser>>)
        ensures
            r.a == self.as_parser(),
    ;

    /// Appends a closed-set string argument.
    fn choice(self, choices: Vec<String>) -> (r: And<Self::Parser, ChoiceParser>)
        ensures
            r.a == self.as_parser(),
            r.b@ == choices@,
    ;

    /// Appends an optional closed-set string argument.
    fn opt_choice(self, choices: Vec<String>) -> (r: And<Self::Parser, Opt<ChoiceParser>>)
        ensures
            r.a == self.as_parser(),
            r.b.inner@ == choices@,
    ;

    /// Appends an arbitrary fragment.
    fn followed_by<P: IterParser>(self, parser: P) -> (r: And<Self::Parser, P>)
        ensures
            r.a == self.as_parser(),
            r.b == parser,
    ;

    /// Closes the grammar with an end guard (no trailing input tolerated)
    /// and binds the curried two-stage handler.
    fn on_call<GameState, CommandResult, F1, F2>(self, f: F1) -> (r: CommandSpec<
        GameState,
        CommandResult,
        F1,
        F2,
        And<Self::Parser, MaybeSpaces>,
    >) where
        F1: Func<<And<Self::Parser, MaybeSpaces> as IterParser>::Extract, Output = F2>,
        F2: Func<GameState, Output = CommandResult>,

        ensures
            r.spec_parser().a == self.as_parser(),
            r.spec_parser().b.nothing_should_follow,
    ;
}

impl<T: IterParser> CommandBuilder for T where
    T::Extract: ExtractConcat<()>,
    T::ParserState: Copy,
 {
    type Parser = T;

    open spec fn as_parser(&self) -> T {
        *self
    }

    fn arg<A: Argument>(self) -> (r: And<Self::Parser, A::Parser>) {
        And { a: self, b: A::Parser::default() }
    }

    fn space(self) -> (r: And<Self::Parser, OneOrMoreSpace>) {
        And { a: self, b: space() }
    }

    fn opt_space(self) -> (r: And<Self::Parser, MaybeSpaces>) {
        And { a: self, b: MaybeSpaces::new() }
    }

    fn literal(self, value: &str) -> (r: And<Self::Parser, Literal>) {
        And { a: self, b: literal(value) }
    }

    fn opt_arg<A: Argument>(self) -> (r: And<Self::Parser, Opt<A::Parser>>) {
        And { a: self, b: Opt { inner: A::Parser::default() } }
    }

    fn choice(self, choices: Vec<String>) -> (r: And<Self::Parser, ChoiceParser>) {
        And { a: self, b: ChoiceParser::new(choices) }
    }

    fn opt_choice(self, choices: Vec<String>) -> (r: And<Self::Parser, Opt<ChoiceParser>>) {
        And { a: self, b: Opt { inner: ChoiceParser::new(choices) } }
    }

    fn followed_by<P: IterParser>(self, parser: P) -> (r: And<Self::Parser, P>) {
        And { a: self, b: parser }
    }

    fn on_call<GameState, CommandResult, F1, F2>(self, f: F1) -> (r: CommandSpec<
        GameState,
        CommandResult,
        F1,
        F2,
        And<Self::Parser, MaybeSpaces>,
    >) where
        F1: Func<<And<Self::Parser, MaybeSpaces> as IterParser>::Extract, Output = F2>,
        F2: Func<GameState, Output = CommandResult>,
     {
        CommandSpec {
            parser: And { a: self, b: MaybeSpaces { nothing_should_follow: true } },
            mapping: f,
            gamestate: PhantomData,
            command_result: PhantomData,
            mapping_result: PhantomData,
        }
    }
}

} // verus!
