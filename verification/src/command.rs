//! Commands: a closed grammar paired with a curried two-stage handler, and
//! the dispatch entry point that parses an input line, polices trailing
//! input through the compiled regex, and invokes the handler.

use core::marker::PhantomData;

use vstd::prelude::*;
use vstd::string::StringExecFns;
use vstd::string::StringSliceAdditionalSpecFns;

use crate::error::ParseError;
use crate::generic::Func;
use crate::parser::IterParser;
use crate::regex::lemma_dfa_matches_nfa;
use crate::regex::nfa::nfa_accepts;
use crate::regex::nfa_of_pattern;
use crate::regex::regex_to_nfa;

pub mod builder;

verus! {

/// Identifies a registered command, for tagging NFA states at dispatch
/// pre-filtering.
#[derive(Clone, Copy, Default, PartialEq, Eq, Structural, Hash, Debug)]
pub struct CommandId {
    pub(crate) id: usize,
}

impl View for CommandId {
    type V = int;

    closed spec fn view(&self) -> int {
        self.id as int
    }
}

impl CommandId {
    pub fn of(value: usize) -> (r: Self)
        ensures
            r@ == value,
    {
        Self { id: value }
    }
}

/// What the dispatch driver's alternative iteration yields: the extraction
/// of the first alternative that parses, or nothing once the alternatives
/// (or the driver's attempt budget) are exhausted.
pub open spec fn spec_drive<P: IterParser>(
    p: P,
    state: P::ParserState,
    input: Seq<char>,
    fuel: nat,
) -> Option<(<P::Extract as DeepView>::V, Seq<char>)>
    decreases fuel,
{
    if fuel == 0 {
        None
    } else {
        match p.spec_parse(state, input) {
            (Ok(pair), _) => Some(pair),
            (Err(e), None) => None,
            (Err(e), Some(next)) => spec_drive(p, next, input, (fuel - 1) as nat),
        }
    }
}

/// A closed grammar with a handler: dispatching an input line either
/// produces the handler's result or reports why the line was rejected.
pub trait Command {
    type GameState;

    type CommandResult;

    fn call(&self, gamestate: Self::GameState, input: &str) -> Result<
        Self::CommandResult,
        ParseError,
    >;

    fn regex(&self) -> String;
}

/// A grammar (always closed by an end guard) bound to a two-stage handler:
/// the first stage consumes the extraction tuple, the second the caller's
/// game state.
pub struct CommandSpec<GameState, CommandResult, F1, F2, P> {
    pub(crate) parser: P,
    pub(crate) mapping: F1,
    pub(crate) gamestate: PhantomData<GameState>,
    pub(crate) command_result: PhantomData<CommandResult>,
    pub(crate) mapping_result: PhantomData<F2>,
}

impl<GameState, CommandResult, F1, F2, P> CommandSpec<GameState, CommandResult, F1, F2, P> {
    /// The grammar this command parses with.
    pub closed spec fn spec_parser(&self) -> P {
        self.parser
    }
}

impl<CommandResult, P: IterParser, GameState, F1, F2, Ext> Command for CommandSpec<
    GameState,
    CommandResult,
    F1,
    F2,
    P,
> where
    F1: Func<Ext, Output = F2>,
    F2: Func<GameState, Output = CommandResult>,
    P: IterParser<Extract = Ext>,
    Ext: DeepView,
 {
    type GameState = GameState;

    type CommandResult = CommandResult;

    /// Dispatch: iterate the grammar's alternatives on `input`; on a parse,
    /// compile the grammar's regex and require it to match the whole input
    /// (else the line carries trailing arguments); then run the handler.
    ///
    /// Succeeds exactly when one of the grammar's alternatives parses the
    /// input and the automaton compiled from the grammar's regular
    /// expression accepts the whole input.  Each error kind names its
    /// cause: no alternative parsed; trailing input the regex does not
    /// cover; or a grammar regex outside the supported subset.
    #[verifier::rlimit(60)]
    fn call(&self, gamestate: GameState, input: &str) -> (r: Result<CommandResult, ParseError>)
        ensures
            r is Ok <==> ({
                &&& spec_drive(
                    self.spec_parser(),
                    self.spec_parser().spec_initial(),
                    input@,
                    usize::MAX as nat,
                ) is Some
                &&& match nfa_of_pattern::<u32>(
                    vstd::utf8::encode_utf8(self.spec_parser().spec_regex()),
                ) {
                    Some(nv) => nfa_accepts(nv, input.spec_bytes()),
                    None => false,
                }
            }),
            r matches Err(ParseError::NoMatch(_)) ==> spec_drive(
                self.spec_parser(),
                self.spec_parser().spec_initial(),
                input@,
                usize::MAX as nat,
            ) is None,
            r matches Err(ParseError::TrailingInput) ==> ({
                &&& spec_drive(
                    self.spec_parser(),
                    self.spec_parser().spec_initial(),
                    input@,
                    usize::MAX as nat,
                ) is Some
                &&& match nfa_of_pattern::<u32>(
                    vstd::utf8::encode_utf8(self.spec_parser().spec_regex()),
                ) {
                    Some(nv) => !nfa_accepts(nv, input.spec_bytes()),
                    None => false,
                }
            }),
            r matches Err(ParseError::RegexUnsupported) ==> ({
                &&& spec_drive(
                    self.spec_parser(),
                    self.spec_parser().spec_initial(),
                    input@,
                    usize::MAX as nat,
                ) is Some
                &&& nfa_of_pattern::<u32>(
                    vstd::utf8::encode_utf8(self.spec_parser().spec_regex()),
                ) is None
            }),
            r is Err ==> (r matches Err(ParseError::NoMatch(_)) || r matches Err(
                ParseError::TrailingInput,
            ) || r matches Err(ParseError::RegexUnsupported)),
    {
        let ghost target = spec_drive(
            self.spec_parser(),
            self.spec_parser().spec_initial(),
            input@,
            usize::MAX as nat,
        );
        let mut state = self.parser.initial_state();
        let mut last = ParseError::EmptyInput;
        let mut tries: usize = 0;
        while tries < usize::MAX
            invariant
                tries <= usize::MAX,
                target == spec_drive(
                    self.spec_parser(),
                    self.spec_parser().spec_initial(),
                    input@,
                    usize::MAX as nat,
                ),
                target == spec_drive(
                    self.spec_parser(),
                    state,
                    input@,
                    (usize::MAX - tries) as nat,
                ),
            decreases usize::MAX - tries,
        {
            match self.parser.parse(state, input) {
                (Ok((ext, _rest)), _next) => {
                    assert(target is Some);
                    let pattern = self.parser.regex();
                    match regex_to_nfa::<u32>(pattern.as_str()) {
                        Ok(nfa) => {
                            let dfa = nfa.to_dfa();
                            match dfa.find(input) {
                                Ok(_) => {
                                    proof {
                                        lemma_dfa_matches_nfa(dfa@, nfa@, input.spec_bytes());
                                    }
                                    return Ok(self.mapping.call(ext).call(gamestate));
                                },
                                Err(_) => {
                                    proof {
                                        lemma_dfa_matches_nfa(dfa@, nfa@, input.spec_bytes());
                                    }
                                    return Err(ParseError::TrailingInput);
                                },
                            }
                        },
                        Err(_) => {
                            return Err(ParseError::RegexUnsupported);
                        },
                    }
                },
                (Err(e), None) => {
                    return Err(ParseError::NoMatch(Box::new(e)));
                },
                (Err(e), Some(next)) => {
                    last = e;
                    state = next;
                },
            }
            tries += 1;
        }
        // The attempt counter only bounds the iteration formally; the
        // grammars this library builds offer finitely many alternatives and
        // return through the arms above.
        Err(ParseError::NoMatch(Box::new(last)))
    }

    fn regex(&self) -> (r: String)
        ensures
            r@ == self.spec_parser().spec_regex(),
    {
        self.parser.regex()
    }
}

} // verus!
