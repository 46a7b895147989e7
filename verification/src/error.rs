use vstd::prelude::*;

verus! {

/// Every way a dispatch can fail.  Errors are plain values; none is retried
/// internally, all surface to the caller of `Command::call`.
#[derive(Debug)]
pub enum ParseError {
    /// A leaf parser saw empty (or all-whitespace) input where a token was
    /// required.
    EmptyInput,
    /// A leaf parser saw a token that is syntactically wrong for its type.
    BadToken,
    /// A choice parser saw a token that is not in its set.
    UnknownChoice,
    /// The grammar parsed a prefix, but non-whitespace input remains.
    TrailingInput,
    /// The grammar exhausted all of its alternatives; carries the error of
    /// the last alternative tried.
    NoMatch(Box<ParseError>),
    /// A regular expression used a feature outside the supported subset.
    RegexUnsupported,
}

} // verus!
