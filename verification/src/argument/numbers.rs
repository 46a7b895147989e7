//! The numeric argument leaves: a 32-bit unsigned integer, and a token in
//! the syntax of a 32-bit binary float.
//!
//! The float leaf extracts the validated token itself (a [`FloatToken`]);
//! turning it into an actual floating-point value is left to the host
//! application, outside the verified library.

use vstd::prelude::*;
use vstd::string::StrSliceExecFns;
use vstd::string::StringExecFns;

use crate::argument::Argument;
use crate::error::ParseError;
use crate::parser::IterParser;
use crate::parser::SpecParsed;
use crate::scan;

verus! {

#[derive(Default)]
pub struct U32Parser {}

#[derive(Default)]
pub struct F32Parser;

proof fn lemma_digit_run_end_bounds(s: Seq<char>, i: int)
    requires
        0 <= i <= s.len(),
    ensures
        i <= scan::digit_run_end(s, i) <= s.len(),
    decreases s.len() - i,
{
    if i < s.len() && scan::is_digit_char(s[i]) {
        lemma_digit_run_end_bounds(s, i + 1);
    }
}

impl IterParser for U32Parser {
    type Extract = (u32,);

    type ParserState = ();

    /// The token is the first character (an optional sign, or the first
    /// digit) together with the run of digits that follows it; it is then
    /// read as a 32-bit unsigned integer.
    open spec fn spec_parse(&self, state: (), input: Seq<char>) -> SpecParsed<(u32,), ()> {
        if input.len() == 0 {
            (Err(ParseError::EmptyInput), None)
        } else {
            let e = scan::digit_run_end(input, 1);
            let tok = input.subrange(0, e);
            let rest = input.subrange(e, input.len() as int);
            match scan::u32_of_token(tok) {
                Some(v) => (Ok(((v,), rest)), None),
                None => (Err(ParseError::BadToken), None),
            }
        }
    }

    open spec fn spec_initial(&self) -> () {
        ()
    }

    open spec fn spec_regex(&self) -> Seq<char> {
        seq!['[', '\\', '+', '|', '-', ']', '?', '\\', 'd', '+']
    }

    fn parse<'p>(&self, state: (), input: &'p str) -> (r: (Result<
        ((u32,), &'p str),
        ParseError,
    >, Option<()>)) {
        let len = input.unicode_len();
        if len == 0 {
            return (Err(ParseError::EmptyInput), None);
        }
        let mut i: usize = 1;
        while i < len && scan::is_digit(input.get_char(i))
            invariant
                1 <= i <= len,
                len == input@.len(),
                scan::digit_run_end(input@, 1) == scan::digit_run_end(input@, i as int),
            decreases len - i,
        {
            i += 1;
        }
        assert(scan::digit_run_end(input@, i as int) == i);
        let tok = input.substring_char(0, i);
        let rest = input.substring_char(i, len);
        match scan::parse_u32(tok) {
            Some(v) => (Ok(((v,), rest)), None),
            None => (Err(ParseError::BadToken), None),
        }
    }

    fn initial_state(&self) -> (s: ()) {
        ()
    }

    fn regex(&self) -> (r: String) {
        let s = String::from_str("[\\+|-]?\\d+");
        proof {
            reveal_strlit("[\\+|-]?\\d+");
            assert(s@ =~= self.spec_regex());
        }
        s
    }
}

impl Argument for u32 {
    type Parser = U32Parser;

    type ParserState = ();
}

/// Case-insensitive match of `c` against the lower-case letter `lower`.
pub open spec fn eq_ci_char(c: char, lower: char) -> bool {
    c == lower || c as u32 + 32 == lower as u32
}

/// Case-insensitive equality of `s` with the lower-case word `w`.
pub open spec fn is_seq_ci(s: Seq<char>, w: Seq<char>) -> bool {
    s.len() == w.len() && forall|j: int| 0 <= j < s.len() ==> eq_ci_char(s[j], w[j])
}

fn ci_eq(a: &str, w: &str) -> (r: bool)
    ensures
        r == is_seq_ci(a@, w@),
{
    let alen = a.unicode_len();
    let wlen = w.unicode_len();
    if alen != wlen {
        return false;
    }
    let mut i: usize = 0;
    while i < alen
        invariant
            0 <= i <= alen,
            alen == a@.len(),
            alen == w@.len(),
            forall|j: int| 0 <= j < i ==> eq_ci_char(a@[j], w@[j]),
        decreases alen - i,
    {
        let c = a.get_char(i);
        let l = w.get_char(i);
        if !(c == l || (c as u32) + 32 == (l as u32)) {
            return false;
        }
        i += 1;
    }
    true
}

/// The first `e` or `E` in `s`, where a float token's exponent begins.
pub open spec fn first_exp(s: Seq<char>) -> Option<int>
    decreases s.len(),
{
    if s.len() == 0 {
        None
    } else if s[0] == 'e' || s[0] == 'E' {
        Some(0int)
    } else {
        match first_exp(s.subrange(1, s.len() as int)) {
            Some(j) => Some(j + 1),
            None => None,
        }
    }
}

proof fn lemma_first_exp_at(s: Seq<char>, i: int)
    requires
        0 <= i <= s.len(),
        forall|j: int| 0 <= j < i ==> s[j] != 'e' && s[j] != 'E',
    ensures
        i == s.len() ==> first_exp(s) is None,
        i < s.len() && (s[i] == 'e' || s[i] == 'E') ==> first_exp(s) == Some(i),
    decreases i,
{
    if i == 0 {
    } else {
        let t = s.subrange(1, s.len() as int);
        lemma_first_exp_at(t, i - 1);
    }
}

/// A float mantissa: digits with at most one decimal point among them, and
/// at least one digit.
pub open spec fn is_mantissa(m: Seq<char>) -> bool {
    &&& forall|j: int| 0 <= j < m.len() ==> scan::is_digit_char(m[j]) || m[j] == '.'
    &&& forall|j: int, k: int|
        0 <= j < m.len() && 0 <= k < m.len() && m[j] == '.' && m[k] == '.' ==> j == k
    &&& exists|j: int| 0 <= j < m.len() && scan::is_digit_char(m[j])
}

/// A float exponent body: an optional sign, then one or more digits.
pub open spec fn is_exponent(x: Seq<char>) -> bool {
    let body = if x.len() > 0 && (x[0] == '+' || x[0] == '-') {
        x.subrange(1, x.len() as int)
    } else {
        x
    };
    body.len() > 0 && scan::all_digits(body)
}

/// A token in the syntax of a 32-bit binary float: an optional sign, then
/// `inf`, `infinity` or `nan` (in any case), or a mantissa with an optional
/// exponent.
pub open spec fn is_f32_token(s: Seq<char>) -> bool {
    let body = if s.len() > 0 && (s[0] == '+' || s[0] == '-') {
        s.subrange(1, s.len() as int)
    } else {
        s
    };
    ||| is_seq_ci(body, seq!['i', 'n', 'f'])
    ||| is_seq_ci(body, seq!['i', 'n', 'f', 'i', 'n', 'i', 't', 'y'])
    ||| is_seq_ci(body, seq!['n', 'a', 'n'])
    ||| match first_exp(body) {
        None => is_mantissa(body),
        Some(i) => is_mantissa(body.subrange(0, i)) && is_exponent(
            body.subrange(i + 1, body.len() as int),
        ),
    }
}

fn all_digits_exec(s: &str) -> (r: bool)
    ensures
        r == scan::all_digits(s@),
{
    let len = s.unicode_len();
    let mut i: usize = 0;
    while i < len
        invariant
            0 <= i <= len,
            len == s@.len(),
            forall|j: int| 0 <= j < i ==> scan::is_digit_char(s@[j]),
        decreases len - i,
    {
        if !scan::is_digit(s.get_char(i)) {
            return false;
        }
        i += 1;
    }
    true
}

fn is_exponent_exec(x: &str) -> (r: bool)
    ensures
        r == is_exponent(x@),
{
    let len = x.unicode_len();
    let start: usize = if len > 0 && (x.get_char(0) == '+' || x.get_char(0) == '-') {
        1
    } else {
        0
    };
    let body = x.substring_char(start, len);
    assert(body@ =~= (if x@.len() > 0 && (x@[0] == '+' || x@[0] == '-') {
        x@.subrange(1, x@.len() as int)
    } else {
        x@
    }));
    if start >= len {
        return false;
    }
    all_digits_exec(body)
}

fn is_mantissa_exec(m: &str) -> (r: bool)
    ensures
        r == is_mantissa(m@),
{
    let len = m.unicode_len();
    let mut i: usize = 0;
    let mut saw_digit: bool = false;
    let ghost mut digit_at: int = 0;
    let mut dot: Option<usize> = None;
    while i < len
        invariant
            0 <= i <= len,
            len == m@.len(),
            forall|j: int| 0 <= j < i ==> scan::is_digit_char(m@[j]) || m@[j] == '.',
            saw_digit ==> 0 <= digit_at < i && scan::is_digit_char(m@[digit_at]),
            !saw_digit ==> forall|j: int| 0 <= j < i ==> !scan::is_digit_char(m@[j]),
            match dot {
                Some(d) => 0 <= d < i && m@[d as int] == '.' && forall|j: int|
                    0 <= j < i && m@[j] == '.' ==> j == d,
                None => forall|j: int| 0 <= j < i ==> m@[j] != '.',
            },
        decreases len - i,
    {
        let c = m.get_char(i);
        if c == '.' {
            match dot {
                Some(d) => {
                    assert(m@[d as int] == '.' && m@[i as int] == '.' && d != i);
                    return false;
                },
                None => {
                    dot = Some(i);
                },
            }
        } else if scan::is_digit(c) {
            if !saw_digit {
                saw_digit = true;
                proof {
                    digit_at = i as int;
                }
            }
        } else {
            assert(!(scan::is_digit_char(m@[i as int]) || m@[i as int] == '.'));
            return false;
        }
        i += 1;
    }
    saw_digit
}

/// Checks that `s` has the syntax of a 32-bit binary float.
pub fn is_float_token(s: &str) -> (r: bool)
    ensures
        r == is_f32_token(s@),
{
    let len = s.unicode_len();
    let start: usize = if len > 0 && (s.get_char(0) == '+' || s.get_char(0) == '-') {
        1
    } else {
        0
    };
    let body = s.substring_char(start, len);
    assert(body@ =~= (if s@.len() > 0 && (s@[0] == '+' || s@[0] == '-') {
        s@.subrange(1, s@.len() as int)
    } else {
        s@
    }));
    if ci_eq(body, "inf") {
        proof {
            reveal_strlit("inf");
            assert("inf"@ =~= seq!['i', 'n', 'f']);
        }
        return true;
    }
    if ci_eq(body, "infinity") {
        proof {
            reveal_strlit("infinity");
            assert("infinity"@ =~= seq!['i', 'n', 'f', 'i', 'n', 'i', 't', 'y']);
        }
        return true;
    }
    if ci_eq(body, "nan") {
        proof {
            reveal_strlit("nan");
            assert("nan"@ =~= seq!['n', 'a', 'n']);
        }
        return true;
    }
    proof {
        reveal_strlit("inf");
        reveal_strlit("infinity");
        reveal_strlit("nan");
        assert("inf"@ =~= seq!['i', 'n', 'f']);
        assert("infinity"@ =~= seq!['i', 'n', 'f', 'i', 'n', 'i', 't', 'y']);
        assert("nan"@ =~= seq!['n', 'a', 'n']);
    }
    let blen = body.unicode_len();
    let mut i: usize = 0;
    while i < blen && body.get_char(i) != 'e' && body.get_char(i) != 'E'
        invariant
            0 <= i <= blen,
            blen == body@.len(),
            forall|j: int| 0 <= j < i ==> body@[j] != 'e' && body@[j] != 'E',
        decreases blen - i,
    {
        i += 1;
    }
    proof {
        lemma_first_exp_at(body@, i as int);
    }
    if i == blen {
        is_mantissa_exec(body)
    } else {
        let mant = body.substring_char(0, i);
        let expn = body.substring_char(i + 1, blen);
        let mant_ok = is_mantissa_exec(mant);
        if !mant_ok {
            return false;
        }
        is_exponent_exec(expn)
    }
}

/// A token validated to have the syntax of a 32-bit binary float, kept as
/// text.  What numeric value it denotes is the host's concern.
#[derive(Debug, Clone)]
pub struct FloatToken {
    text: String,
}

impl View for FloatToken {
    type V = Seq<char>;

    closed spec fn view(&self) -> Seq<char> {
        self.text@
    }
}

impl DeepView for FloatToken {
    type V = Seq<char>;

    open spec fn deep_view(&self) -> Seq<char> {
        self@
    }
}

impl FloatToken {
    pub fn new(text: String) -> (r: Self)
        ensures
            r@ == text@,
    {
        Self { text }
    }

    pub fn get(&self) -> (r: &str)
        ensures
            r@ == self@,
    {
        self.text.as_str()
    }
}

impl IterParser for F32Parser {
    type Extract = (FloatToken,);

    type ParserState = ();

    open spec fn spec_parse(&self, state: (), input: Seq<char>) -> SpecParsed<(Seq<char>,), ()> {
        let t = scan::trimmed(input);
        if t.len() == 0 {
            (Err(ParseError::EmptyInput), None)
        } else {
            let e = scan::token_end(t);
            let tok = t.subrange(0, e);
            let rest = t.subrange(e, t.len() as int);
            if is_f32_token(tok) {
                (Ok(((tok,), rest)), None)
            } else {
                (Err(ParseError::BadToken), None)
            }
        }
    }

    open spec fn spec_initial(&self) -> () {
        ()
    }

    open spec fn spec_regex(&self) -> Seq<char> {
        seq![
            '[',
            '+',
            '-',
            ']',
            '?',
            '(',
            '[',
            '0',
            '-',
            '9',
            ']',
            '*',
            '[',
            '.',
            ']',
            ')',
            '?',
            '[',
            '0',
            '-',
            '9',
            ']',
            '+',
        ]
    }

    fn parse<'p>(&self, state: (), input: &'p str) -> (r: (Result<
        ((FloatToken,), &'p str),
        ParseError,
    >, Option<()>)) {
        let t = scan::trim(input);
        let tlen = t.unicode_len();
        if tlen == 0 {
            return (Err(ParseError::EmptyInput), None);
        }
        let e = scan::find_token_end(t);
        let tok = t.substring_char(0, e);
        let rest = t.substring_char(e, tlen);
        if is_float_token(tok) {
            (Ok(((FloatToken { text: tok.to_owned() },), rest)), None)
        } else {
            (Err(ParseError::BadToken), None)
        }
    }

    fn initial_state(&self) -> (s: ()) {
        ()
    }

    fn regex(&self) -> (r: String) {
        let s = String::from_str("[+-]?([0-9]*[.])?[0-9]+");
        proof {
            reveal_strlit("[+-]?([0-9]*[.])?[0-9]+");
            assert(s@ =~= self.spec_regex());
        }
        s
    }
}

impl Argument for FloatToken {
    type Parser = F32Parser;

    type ParserState = ();
}

} // verus!
