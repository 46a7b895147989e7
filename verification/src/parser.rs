//! The iterative parser contract and the fragment combinators.
//!
//! Every grammar fragment implements [`IterParser`].  `parse` attempts one
//! alternative and reports, besides its result, an optional next parser
//! state; the driver re-invokes `parse` with that state when a later
//! fragment fails, which is the engine's sole backtracking mechanism.
//! `spec_parse` is the functional model every implementation's `parse` is
//! proved against.

use vstd::prelude::*;
use vstd::string::StrSliceExecFns;
use vstd::string::StringExecFns;

use crate::error::ParseError;
use crate::generic::ExtractConcat;

pub mod space;

verus! {

pub use space::MaybeSpaces;
pub use space::OnceState;
pub use space::OneOrMoreSpace;

/// The result of one parse attempt, as the functional model sees it: the
/// deep view of the extraction and the remaining input on success, and the
/// next alternative's state if one exists.
pub type SpecParsed<EV, S> = (Result<(EV, Seq<char>), ParseError>, Option<S>);

/// Relates an executable parse result to its functional model: equal
/// outcomes, with the extraction compared by its deep view and the
/// remaining input by its characters.
pub open spec fn parse_matches_spec<E: DeepView, S>(
    s: SpecParsed<E::V, S>,
    r: (Result<(E, &str), ParseError>, Option<S>),
) -> bool {
    &&& match (s.0, r.0) {
        (Ok((se, srem)), Ok((re, rrem))) => se == re.deep_view() && srem == rrem@,
        (Err(e1), Err(e2)) => e1 == e2,
        _ => false,
    }
    &&& s.1 == r.1
}

/// The uniform contract of all grammar fragments.
pub trait IterParser: Sized {
    /// The (possibly empty) tuple of values this fragment extracts.
    type Extract: DeepView;

    /// The fragment's backtracking cursor.  All current fragments are
    /// deterministic, so their states are small and freely copyable.
    type ParserState: Default;

    /// The functional model of `parse`.
    spec fn spec_parse(&self, state: Self::ParserState, input: Seq<char>) -> SpecParsed<
        <Self::Extract as DeepView>::V,
        Self::ParserState,
    >;

    /// The state `parse` is first invoked with.
    spec fn spec_initial(&self) -> Self::ParserState;

    /// The characters of the regular expression `regex` returns.
    spec fn spec_regex(&self) -> Seq<char>;

    /// Attempts to parse a prefix of `input` under the alternative selected
    /// by `state`.
    fn parse<'p>(&self, state: Self::ParserState, input: &'p str) -> (r: (Result<
        (Self::Extract, &'p str),
        ParseError,
    >, Option<Self::ParserState>))
        ensures
            parse_matches_spec::<Self::Extract, Self::ParserState>(
                self.spec_parse(state, input@),
                r,
            ),
    ;

    /// The state of the fragment's first alternative.
    fn initial_state(&self) -> (s: Self::ParserState)
        ensures
            s == self.spec_initial(),
    ;

    /// A regular expression whose language over-approximates the set of
    /// strings the fragment accepts.
    fn regex(&self) -> (r: String)
        ensures
            r@ == self.spec_regex(),
    ;
}

/// The regex metacharacters, which `escape_regex` protects with a backslash.
pub open spec fn is_regex_metachar(c: char) -> bool {
    ||| c == '\\'
    ||| c == '.'
    ||| c == '^'
    ||| c == '$'
    ||| c == '|'
    ||| c == '*'
    ||| c == '+'
    ||| c == '?'
    ||| c == '{'
    ||| c == '}'
    ||| c == '('
    ||| c == ')'
    ||| c == '['
    ||| c == ']'
}

fn is_metachar(c: char) -> (b: bool)
    ensures
        b == is_regex_metachar(c),
{
    c == '\\' || c == '.' || c == '^' || c == '$' || c == '|' || c == '*' || c == '+' || c == '?'
        || c == '{' || c == '}' || c == '(' || c == ')' || c == '[' || c == ']'
}

pub open spec fn escaped_char(c: char) -> Seq<char> {
    if is_regex_metachar(c) {
        seq!['\\', c]
    } else {
        seq![c]
    }
}

/// `s` with every regex metacharacter preceded by a backslash.
pub open spec fn escaped_regex(s: Seq<char>) -> Seq<char>
    decreases s.len(),
{
    if s.len() == 0 {
        Seq::empty()
    } else {
        escaped_regex(s.subrange(0, s.len() - 1)) + escaped_char(s[s.len() - 1])
    }
}

/// Relies on String::push: appends exactly one character to the string.
#[verifier::external_body]
pub(crate) fn push_char(s: &mut String, c: char)
    ensures
        final(s)@ == old(s)@.push(c),
{
    s.push(c);
}

/// Escapes the regex metacharacters of `s`, so that the result matches `s`
/// literally.
pub fn escape_regex(s: &str) -> (r: String)
    ensures
        r@ == escaped_regex(s@),
{
    let len = s.unicode_len();
    let mut r = String::new();
    let mut i: usize = 0;
    while i < len
        invariant
            0 <= i <= len,
            len == s@.len(),
            r@ == escaped_regex(s@.subrange(0, i as int)),
        decreases len - i,
    {
        let c = s.get_char(i);
        if is_metachar(c) {
            push_char(&mut r, '\\');
        }
        push_char(&mut r, c);
        proof {
            assert(s@.subrange(0, i + 1).subrange(0, i as int) =~= s@.subrange(0, i as int));
            assert(r@ =~= escaped_regex(s@.subrange(0, i + 1)));
        }
        i += 1;
    }
    proof {
        assert(s@.subrange(0, len as int) =~= s@);
    }
    r
}

/// Matches an exact string at the head of the input and consumes it.
pub struct Literal {
    pub value: String,
}

impl IterParser for Literal {
    type Extract = ();

    type ParserState = ();

    open spec fn spec_parse(&self, state: (), input: Seq<char>) -> SpecParsed<(), ()> {
        if input.len() >= self.value@.len() && input.subrange(0, self.value@.len() as int)
            == self.value@ {
            (Ok(((), input.subrange(self.value@.len() as int, input.len() as int))), None)
        } else {
            (Err(ParseError::BadToken), None)
        }
    }

    open spec fn spec_initial(&self) -> () {
        ()
    }

    open spec fn spec_regex(&self) -> Seq<char> {
        escaped_regex(self.value@)
    }

    fn parse<'p>(&self, state: (), input: &'p str) -> (r: (Result<((), &'p str), ParseError>, Option<
        (),
    >)) {
        let vlen = self.value.as_str().unicode_len();
        let ilen = input.unicode_len();
        if ilen < vlen {
            return (Err(ParseError::BadToken), None);
        }
        let mut i: usize = 0;
        while i < vlen
            invariant
                0 <= i <= vlen,
                vlen == self.value@.len(),
                vlen <= input@.len(),
                ilen == input@.len(),
                forall|j: int| 0 <= j < i ==> input@[j] == self.value@[j],
            decreases vlen - i,
        {
            if input.get_char(i) != self.value.as_str().get_char(i) {
                assert(input@.subrange(0, vlen as int)[i as int] != self.value@[i as int]);
                return (Err(ParseError::BadToken), None);
            }
            i += 1;
        }
        assert(input@.subrange(0, vlen as int) =~= self.value@);
        let rest = input.substring_char(vlen, ilen);
        (Ok(((), rest)), None)
    }

    fn initial_state(&self) -> (s: ()) {
        ()
    }

    fn regex(&self) -> (r: String) {
        escape_regex(self.value.as_str())
    }
}

/// Sequencing: parses `a`, then `b` on what `a` left, concatenating their
/// extractions.  Backtracking first retries `b`'s alternatives, then moves
/// `a` on and restarts `b`.
pub struct And<A, B> {
    pub a: A,
    pub b: B,
}

impl<A: IterParser, B: IterParser> IterParser for And<A, B> where
    A::Extract: ExtractConcat<B::Extract>,
    A::ParserState: Copy,
    B::ParserState: Copy,
 {
    type Extract = <A::Extract as ExtractConcat<B::Extract>>::Out;

    type ParserState = (A::ParserState, Option<B::ParserState>);

    open spec fn spec_parse(&self, state: Self::ParserState, input: Seq<char>) -> SpecParsed<
        <Self::Extract as DeepView>::V,
        Self::ParserState,
    > {
        match self.a.spec_parse(state.0, input) {
            (Err(e), na) => (
                Err(e),
                match na {
                    Some(n) => Some((n, None)),
                    None => None,
                },
            ),
            (Ok((ea, rem)), na) => {
                let sb = match state.1 {
                    Some(s) => s,
                    None => self.b.spec_initial(),
                };
                let next = |nb: Option<B::ParserState>|
                    match nb {
                        Some(n) => Some((state.0, Some(n))),
                        None => match na {
                            Some(n2) => Some((n2, None)),
                            None => None,
                        },
                    };
                match self.b.spec_parse(sb, rem) {
                    (Ok((eb, rem2)), nb) => (
                        Ok((<A::Extract as ExtractConcat<B::Extract>>::view_concat(ea, eb), rem2)),
                        next(nb),
                    ),
                    (Err(e), nb) => (Err(e), next(nb)),
                }
            },
        }
    }

    open spec fn spec_initial(&self) -> Self::ParserState {
        (self.a.spec_initial(), None)
    }

    open spec fn spec_regex(&self) -> Seq<char> {
        self.a.spec_regex() + self.b.spec_regex()
    }

    fn parse<'p>(&self, state: Self::ParserState, input: &'p str) -> (r: (Result<
        (Self::Extract, &'p str),
        ParseError,
    >, Option<Self::ParserState>)) {
        let (sa, osb) = state;
        match self.a.parse(sa, input) {
            (Err(e), na) => (
                Err(e),
                match na {
                    Some(n) => Some((n, None)),
                    None => None,
                },
            ),
            (Ok((ea, rem)), na) => {
                let sb = match osb {
                    Some(s) => s,
                    None => self.b.initial_state(),
                };
                match self.b.parse(sb, rem) {
                    (Ok((eb, rem2)), nb) => {
                        let next = match nb {
                            Some(n) => Some((sa, Some(n))),
                            None => match na {
                                Some(n2) => Some((n2, None)),
                                None => None,
                            },
                        };
                        (Ok((ea.concat(eb), rem2)), next)
                    },
                    (Err(e), nb) => {
                        let next = match nb {
                            Some(n) => Some((sa, Some(n))),
                            None => match na {
                                Some(n2) => Some((n2, None)),
                                None => None,
                            },
                        };
                        (Err(e), next)
                    },
                }
            },
        }
    }

    fn initial_state(&self) -> (s: Self::ParserState) {
        (self.a.initial_state(), None)
    }

    fn regex(&self) -> (r: String) {
        let mut s = self.a.regex();
        let rb = self.b.regex();
        s.append(rb.as_str());
        s
    }
}

/// The backtracking cursor of [`Opt`]: first attempt the inner fragment,
/// then fall back to matching nothing.
#[derive(Clone, Copy)]
pub enum OptState<S> {
    Attempt(S),
    Fallback,
}

impl<S: Default> Default for OptState<S> {
    fn default() -> (r: Self) {
        OptState::Attempt(S::default())
    }
}

/// Makes a fragment optional: if the inner fragment succeeds its extraction
/// is wrapped in `Some`, otherwise nothing is consumed and the extraction is
/// `None`.
pub struct Opt<P> {
    pub inner: P,
}

impl<P: IterParser> IterParser for Opt<P> {
    type Extract = (Option<P::Extract>,);

    type ParserState = OptState<P::ParserState>;

    open spec fn spec_parse(&self, state: Self::ParserState, input: Seq<char>) -> SpecParsed<
        <Self::Extract as DeepView>::V,
        Self::ParserState,
    > {
        match state {
            OptState::Attempt(s) => match self.inner.spec_parse(s, input) {
                (Ok((x, rem)), np) => (
                    Ok(((Some(x),), rem)),
                    Some(
                        match np {
                            Some(n) => OptState::Attempt(n),
                            None => OptState::Fallback,
                        },
                    ),
                ),
                (Err(e), np) => (
                    Ok(((None, ), input)),
                    match np {
                        Some(n) => Some(OptState::Attempt(n)),
                        None => None,
                    },
                ),
            },
            OptState::Fallback => (Ok(((None, ), input)), None),
        }
    }

    open spec fn spec_initial(&self) -> Self::ParserState {
        OptState::Attempt(self.inner.spec_initial())
    }

    open spec fn spec_regex(&self) -> Seq<char> {
        seq!['('] + self.inner.spec_regex() + seq![')', '?']
    }

    fn parse<'p>(&self, state: Self::ParserState, input: &'p str) -> (r: (Result<
        (Self::Extract, &'p str),
        ParseError,
    >, Option<Self::ParserState>)) {
        match state {
            OptState::Attempt(s) => match self.inner.parse(s, input) {
                (Ok((x, rem)), np) => (
                    Ok(((Some(x),), rem)),
                    Some(
                        match np {
                            Some(n) => OptState::Attempt(n),
                            None => OptState::Fallback,
                        },
                    ),
                ),
                (Err(e), np) => (
                    Ok(((None, ), input)),
                    match np {
                        Some(n) => Some(OptState::Attempt(n)),
                        None => None,
                    },
                ),
            },
            OptState::Fallback => (Ok(((None, ), input)), None),
        }
    }

    fn initial_state(&self) -> (s: Self::ParserState) {
        OptState::Attempt(self.inner.initial_state())
    }

    fn regex(&self) -> (r: String) {
        let mut s = String::from_str("(");
        let ri = self.inner.regex();
        s.append(ri.as_str());
        s.append(")?");
        proof {
            reveal_strlit("(");
            reveal_strlit(")?");
            assert(s@ =~= self.spec_regex());
        }
        s
    }
}

/// Sequencing concatenates regular expressions: the regex of `And(a, b)`
/// is the regex of `a` followed by the regex of `b`.
pub proof fn lemma_and_regex<A: IterParser, B: IterParser>(x: &And<A, B>) where
    A::Extract: ExtractConcat<B::Extract>,
    A::ParserState: Copy,
    B::ParserState: Copy,

    ensures
        x.spec_regex() == x.a.spec_regex() + x.b.spec_regex(),
{
}

/// Whether the inner fragment of an `Opt`, started from its first
/// alternative, fails on `input`.
pub open spec fn inner_fails<P: IterParser>(p: &Opt<P>, input: Seq<char>) -> bool {
    p.inner.spec_parse(p.inner.spec_initial(), input).0 is Err
}

/// The optional combinator in one sentence: from its first alternative,
/// `Opt(p)` on `s` never fails; it extracts `None` and consumes nothing
/// exactly when `p` fails on `s`, and extracts `Some(x)` leaving `r`
/// exactly when `p` succeeds with `x` leaving `r`.
pub proof fn lemma_opt_parse<P: IterParser>(p: &Opt<P>, input: Seq<char>)
    ensures
        p.spec_parse(p.spec_initial(), input).0 is Ok,
        inner_fails(p, input) <==> p.spec_parse(p.spec_initial(), input).0
            == Ok::<_, ParseError>(((None::<<P::Extract as DeepView>::V>, ), input)),
        forall|x: <P::Extract as DeepView>::V, rem: Seq<char>|
            p.inner.spec_parse(p.inner.spec_initial(), input).0 == Ok::<_, ParseError>((x, rem))
                <==> p.spec_parse(p.spec_initial(), input).0 == Ok::<_, ParseError>(
                ((Some(x),), rem),
            ),
{
}

} // verus!
