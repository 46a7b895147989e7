//! The regex front end: translates the supported regular-expression subset
//! (literals, escapes, classes, `.`, alternation, grouping, `?` `*` `+`)
//! into an NFA over raw bytes.
//!
//! The translation is specified by the `spec_*` functions, a functional
//! mirror of the recursive-descent compiler: `nfa_of_pattern` names the NFA
//! a pattern compiles to, and `regex_to_nfa` is proved to return exactly
//! that automaton.

use vstd::prelude::*;
use vstd::string::StrSliceExecFns;
use vstd::string::StringSliceAdditionalSpecFns;

use crate::error::ParseError;
use crate::regex::nfa::class_view;
use crate::regex::nfa::concat_view;
use crate::regex::nfa::literal_view;
use crate::regex::nfa::or_view;
use crate::regex::nfa::repeat_view;
use crate::regex::nfa::NfaView;
use crate::regex::nfa::NFA;

verus! {

/// Whether two automata of these sizes can be combined without the state
/// indices outgrowing `usize`.
fn can_combine(a: usize, b: usize) -> (r: bool)
    ensures
        r == (a + b + 2 <= usize::MAX),
{
    a <= usize::MAX - 2 && b <= usize::MAX - 2 - a
}

/// The whitespace byte set of the regex `\s`.
pub open spec fn spec_space_flags() -> Seq<bool> {
    Seq::new(256, |i: int| i == 9 || i == 10 || i == 11 || i == 12 || i == 13 || i == 32)
}

/// The decimal-digit byte set of the regex `\d`.
pub open spec fn spec_digit_flags() -> Seq<bool> {
    Seq::new(256, |i: int| 48 <= i <= 57)
}

/// The non-whitespace byte set of the regex `\S`.
pub open spec fn spec_not_space_flags() -> Seq<bool> {
    Seq::new(256, |i: int| !(i == 9 || i == 10 || i == 11 || i == 12 || i == 13 || i == 32))
}

/// All 256 byte flags equal to `value`.
pub open spec fn spec_const_flags(value: bool) -> Seq<bool> {
    Seq::new(256, |i: int| value)
}

fn space_flags() -> (r: Vec<bool>)
    ensures
        r@ == spec_space_flags(),
{
    let mut flags: Vec<bool> = Vec::new();
    let mut b: usize = 0;
    while b < 256
        invariant
            0 <= b <= 256,
            flags@.len() == b,
            forall|k: int| 0 <= k < b ==> flags@[k] == spec_space_flags()[k],
        decreases 256 - b,
    {
        flags.push(b == 9 || b == 10 || b == 11 || b == 12 || b == 13 || b == 32);
        b += 1;
    }
    proof {
        assert(flags@ =~= spec_space_flags());
    }
    flags
}

fn const_flags(value: bool) -> (r: Vec<bool>)
    ensures
        r@ == spec_const_flags(value),
{
    let mut flags: Vec<bool> = Vec::new();
    let mut b: usize = 0;
    while b < 256
        invariant
            0 <= b <= 256,
            flags@.len() == b,
            forall|k: int| 0 <= k < b ==> flags@[k] == value,
        decreases 256 - b,
    {
        flags.push(value);
        b += 1;
    }
    proof {
        assert(flags@ =~= spec_const_flags(value));
    }
    flags
}

fn digit_flags() -> (r: Vec<bool>)
    ensures
        r@ == spec_digit_flags(),
{
    let mut flags: Vec<bool> = Vec::new();
    let mut b: usize = 0;
    while b < 256
        invariant
            0 <= b <= 256,
            flags@.len() == b,
            forall|k: int| 0 <= k < b ==> flags@[k] == spec_digit_flags()[k],
        decreases 256 - b,
    {
        flags.push(48 <= b && b <= 57);
        b += 1;
    }
    proof {
        assert(flags@ =~= spec_digit_flags());
    }
    flags
}

fn not_space_flags() -> (r: Vec<bool>)
    ensures
        r@ == spec_not_space_flags(),
{
    let mut flags: Vec<bool> = Vec::new();
    let mut b: usize = 0;
    while b < 256
        invariant
            0 <= b <= 256,
            flags@.len() == b,
            forall|k: int| 0 <= k < b ==> flags@[k] == spec_not_space_flags()[k],
        decreases 256 - b,
    {
        flags.push(!(b == 9 || b == 10 || b == 11 || b == 12 || b == 13 || b == 32));
        b += 1;
    }
    proof {
        assert(flags@ =~= spec_not_space_flags());
    }
    flags
}

/// The regex metacharacters, which an escape makes literal.
pub open spec fn spec_is_meta(b: u8) -> bool {
    b == 92 || b == 46 || b == 94 || b == 36 || b == 124 || b == 42 || b == 43 || b == 63 || b
        == 123 || b == 125 || b == 40 || b == 41 || b == 91 || b == 93
}

fn is_meta_byte(b: u8) -> (r: bool)
    ensures
        r == spec_is_meta(b),
{
    b == 92 || b == 46 || b == 94 || b == 36 || b == 124 || b == 42 || b == 43 || b == 63 || b
        == 123 || b == 125 || b == 40 || b == 41 || b == 91 || b == 93
}

/// One class member at `pos`: a plain byte or an escaped metacharacter.
pub open spec fn spec_class_byte(bytes: Seq<u8>, pos: int) -> Option<(u8, int)> {
    if bytes[pos] == 92 {
        if pos + 1 >= bytes.len() {
            None
        } else if spec_is_meta(bytes[pos + 1]) {
            Some((bytes[pos + 1], pos + 2))
        } else {
            None
        }
    } else {
        Some((bytes[pos], pos + 1))
    }
}

/// The byte set named by an escaped class (`\d`, `\s` or `\S`).
pub open spec fn spec_set_for(e: u8) -> Seq<bool> {
    if e == 100 {
        spec_digit_flags()
    } else if e == 115 {
        spec_space_flags()
    } else {
        spec_not_space_flags()
    }
}

/// The union of two byte sets.
pub open spec fn or_flags(f: Seq<bool>, g: Seq<bool>) -> Seq<bool> {
    Seq::new(256, |i: int| f[i] || g[i])
}

/// `f` with the bytes from `lo` to `hi` added.
pub open spec fn range_flags(f: Seq<bool>, lo: u8, hi: u8) -> Seq<bool> {
    Seq::new(256, |i: int| f[i] || (lo <= i <= hi))
}

/// The members of a character class from `p` on, accumulated into `flags`,
/// up to the closing bracket.
pub open spec fn spec_class_loop(bytes: Seq<u8>, p: int, flags: Seq<bool>) -> Option<
    (Seq<bool>, int),
>
    decreases bytes.len() - p,
{
    if p < 0 || p >= bytes.len() {
        None
    } else if bytes[p] == 93 {
        Some((flags, p + 1))
    } else if bytes[p] == 92 && p + 1 < bytes.len() && (bytes[p + 1] == 100 || bytes[p + 1] == 115
        || bytes[p + 1] == 83) {
        spec_class_loop(bytes, p + 2, or_flags(flags, spec_set_for(bytes[p + 1])))
    } else {
        match spec_class_byte(bytes, p) {
            Some((lo, p2)) => if p < p2 <= bytes.len() {
                if p2 < bytes.len() && bytes[p2] == 45 && p2 + 1 < bytes.len() && bytes[p2 + 1]
                    != 93 {
                    match spec_class_byte(bytes, p2 + 1) {
                        Some((hi, p3)) => if p2 + 1 < p3 <= bytes.len() {
                            if hi < lo {
                                None
                            } else {
                                spec_class_loop(bytes, p3, range_flags(flags, lo, hi))
                            }
                        } else {
                            None
                        },
                        None => None,
                    }
                } else {
                    spec_class_loop(bytes, p2, flags.update(lo as int, true))
                }
            } else {
                None
            },
            None => None,
        }
    }
}

/// A whole character class after its opening bracket.  Negated classes are
/// outside the supported subset.
pub open spec fn spec_class(bytes: Seq<u8>, pos: int) -> Option<(Seq<bool>, int)> {
    if pos < bytes.len() && bytes[pos] == 94 {
        None
    } else {
        spec_class_loop(bytes, pos, spec_const_flags(false))
    }
}

/// An atom: a group, a class, `.`, an escape, or a literal byte.
pub open spec fn spec_atom<A>(bytes: Seq<u8>, pos: int) -> Option<(NfaView<A>, int)>
    decreases bytes.len() - pos, 0int,
{
    if pos < 0 || pos >= bytes.len() {
        None
    } else {
        let b = bytes[pos];
        if b == 40 {
            match spec_alt::<A>(bytes, pos + 1) {
                Some((nv, p2)) => if p2 < bytes.len() && bytes[p2] == 41 {
                    Some((nv, p2 + 1))
                } else {
                    None
                },
                None => None,
            }
        } else if b == 91 {
            match spec_class(bytes, pos + 1) {
                Some((flags, p2)) => Some((class_view::<A>(flags), p2)),
                None => None,
            }
        } else if b == 46 {
            Some((class_view::<A>(spec_const_flags(true)), pos + 1))
        } else if b == 92 {
            if pos + 1 >= bytes.len() {
                None
            } else {
                let e = bytes[pos + 1];
                if spec_is_meta(e) {
                    Some(
                        (class_view::<A>(spec_const_flags(false).update(e as int, true)), pos + 2),
                    )
                } else if e == 115 {
                    Some((class_view::<A>(spec_space_flags()), pos + 2))
                } else if e == 83 {
                    Some((class_view::<A>(spec_not_space_flags()), pos + 2))
                } else if e == 100 {
                    Some((class_view::<A>(spec_digit_flags()), pos + 2))
                } else {
                    None
                }
            }
        } else if b == 94 || b == 36 || b == 123 || b == 125 || b == 42 || b == 43 || b == 63 || b
            == 41 {
            None
        } else {
            Some((class_view::<A>(spec_const_flags(false).update(b as int, true)), pos + 1))
        }
    }
}

/// The postfix repetition operators applied to `acc` from `p` on.
pub open spec fn spec_rep_loop<A>(bytes: Seq<u8>, p: int, acc: NfaView<A>) -> Option<
    (NfaView<A>, int),
>
    decreases bytes.len() - p, 0int,
{
    if 0 <= p < bytes.len() && (bytes[p] == 63 || bytes[p] == 42 || bytes[p] == 43) {
        if acc.states.len() + 2 > usize::MAX {
            None
        } else {
            spec_rep_loop(bytes, p + 1, repeat_view(acc, bytes[p] != 43, bytes[p] != 63))
        }
    } else {
        Some((acc, p))
    }
}

/// One atom with its postfix repetition operators.
pub open spec fn spec_rep<A>(bytes: Seq<u8>, pos: int) -> Option<(NfaView<A>, int)>
    decreases bytes.len() - pos, 1int,
{
    match spec_atom::<A>(bytes, pos) {
        Some((nv, p)) => if pos < p <= bytes.len() {
            spec_rep_loop(bytes, p, nv)
        } else {
            None
        },
        None => None,
    }
}

/// A run of repeated atoms from `p` on, concatenated onto `acc`.
pub open spec fn spec_cat_loop<A>(bytes: Seq<u8>, p: int, acc: NfaView<A>) -> Option<
    (NfaView<A>, int),
>
    decreases bytes.len() - p, 2int,
{
    if 0 <= p < bytes.len() && bytes[p] != 124 && bytes[p] != 41 {
        match spec_rep::<A>(bytes, p) {
            Some((rhs, p2)) => if p < p2 <= bytes.len() {
                if acc.states.len() + rhs.states.len() + 2 <= usize::MAX {
                    spec_cat_loop(bytes, p2, concat_view(acc, rhs))
                } else {
                    None
                }
            } else {
                None
            },
            None => None,
        }
    } else {
        Some((acc, p))
    }
}

/// A concatenation.
pub open spec fn spec_cat<A>(bytes: Seq<u8>, pos: int) -> Option<(NfaView<A>, int)>
    decreases bytes.len() - pos, 3int,
{
    spec_cat_loop(bytes, pos, literal_view::<A>(Seq::empty()))
}

/// The remaining `|` branches from `p` on, merged into `acc`.
pub open spec fn spec_alt_loop<A>(bytes: Seq<u8>, p: int, acc: NfaView<A>) -> Option<
    (NfaView<A>, int),
>
    decreases bytes.len() - p, 4int,
{
    if 0 <= p < bytes.len() && bytes[p] == 124 {
        match spec_cat::<A>(bytes, p + 1) {
            Some((rhs, p2)) => if p < p2 <= bytes.len() {
                if acc.states.len() + rhs.states.len() + 2 <= usize::MAX {
                    spec_alt_loop(bytes, p2, or_view(acc, rhs))
                } else {
                    None
                }
            } else {
                None
            },
            None => None,
        }
    } else {
        Some((acc, p))
    }
}

/// An alternation (the whole expression, or a group body).
pub open spec fn spec_alt<A>(bytes: Seq<u8>, pos: int) -> Option<(NfaView<A>, int)>
    decreases bytes.len() - pos, 5int,
{
    match spec_cat::<A>(bytes, pos) {
        Some((acc, p)) => if pos <= p <= bytes.len() {
            spec_alt_loop(bytes, p, acc)
        } else {
            None
        },
        None => None,
    }
}

/// The automaton a pattern compiles to: the alternation over the whole byte
/// sequence, provided it is consumed entirely.
pub open spec fn nfa_of_pattern<A>(bytes: Seq<u8>) -> Option<NfaView<A>> {
    match spec_alt::<A>(bytes, 0) {
        Some((nv, p)) => if p == bytes.len() {
            Some(nv)
        } else {
            None
        },
        None => None,
    }
}

fn merge_or(a: &Vec<bool>, b: &Vec<bool>) -> (r: Vec<bool>)
    requires
        a@.len() == 256,
        b@.len() == 256,
    ensures
        r@ == or_flags(a@, b@),
{
    let mut merged: Vec<bool> = Vec::new();
    let mut k: usize = 0;
    while k < 256
        invariant
            0 <= k <= 256,
            a@.len() == 256,
            b@.len() == 256,
            merged@.len() == k,
            forall|i: int| 0 <= i < k ==> merged@[i] == (a@[i] || b@[i]),
        decreases 256 - k,
    {
        merged.push(a[k] || b[k]);
        k += 1;
    }
    proof {
        assert(merged@ =~= or_flags(a@, b@));
    }
    merged
}

fn merge_range(a: &Vec<bool>, lo: u8, hi: u8) -> (r: Vec<bool>)
    requires
        a@.len() == 256,
    ensures
        r@ == range_flags(a@, lo, hi),
{
    let mut merged: Vec<bool> = Vec::new();
    let mut k: usize = 0;
    while k < 256
        invariant
            0 <= k <= 256,
            a@.len() == 256,
            merged@.len() == k,
            forall|i: int| 0 <= i < k ==> merged@[i] == (a@[i] || (lo <= i <= hi)),
        decreases 256 - k,
    {
        merged.push(a[k] || (lo as usize <= k && k <= hi as usize));
        k += 1;
    }
    proof {
        assert(merged@ =~= range_flags(a@, lo, hi));
    }
    merged
}

/// Reads one class member after `pos`: a plain byte or an escaped
/// metacharacter.  Returns the byte and the next position.
fn parse_class_byte(bytes: &Vec<u8>, pos: usize) -> (r: Result<(u8, usize), ParseError>)
    requires
        pos < bytes@.len(),
    ensures
        match r {
            Ok((c, np)) => pos < np <= bytes@.len() && spec_class_byte(bytes@, pos as int) == Some(
                (c, np as int),
            ),
            Err(_) => spec_class_byte(bytes@, pos as int) is None,
        },
{
    let blen = bytes.len();
    let b = bytes[pos];
    if b == 92 {
        if pos + 1 >= blen {
            return Err(ParseError::RegexUnsupported);
        }
        let e = bytes[pos + 1];
        if is_meta_byte(e) {
            Ok((e, pos + 2))
        } else {
            Err(ParseError::RegexUnsupported)
        }
    } else {
        Ok((b, pos + 1))
    }
}

/// Parses a character class after its opening bracket: plain and escaped
/// members, ranges, a trailing literal `-`, and the `\d` `\s` `\S` sets.
/// Negated classes are outside the supported subset.
fn parse_class(bytes: &Vec<u8>, pos: usize) -> (r: Result<(Vec<bool>, usize), ParseError>)
    requires
        pos <= bytes@.len(),
    ensures
        match r {
            Ok((flags, np)) => flags@.len() == 256 && pos < np <= bytes@.len() && spec_class(
                bytes@,
                pos as int,
            ) == Some((flags@, np as int)),
            Err(_) => spec_class(bytes@, pos as int) is None,
        },
{
    let mut flags = const_flags(false);
    let mut p = pos;
    if p < bytes.len() && bytes[p] == 94 {
        return Err(ParseError::RegexUnsupported);
    }
    while p < bytes.len() && bytes[p] != 93
        invariant
            pos <= p <= bytes@.len(),
            flags@.len() == 256,
            spec_class_loop(bytes@, p as int, flags@) == spec_class(bytes@, pos as int),
        decreases bytes@.len() - p,
    {
        let b = bytes[p];
        if b == 92 && p + 1 < bytes.len() && (bytes[p + 1] == 100 || bytes[p + 1] == 115 || bytes[p
            + 1] == 83) {
            let e = bytes[p + 1];
            let extra = if e == 100 {
                digit_flags()
            } else if e == 115 {
                space_flags()
            } else {
                not_space_flags()
            };
            flags = merge_or(&flags, &extra);
            p = p + 2;
        } else {
            let (lo, p2) = match parse_class_byte(bytes, p) {
                Ok(v) => v,
                Err(e) => {
                    return Err(e);
                },
            };
            if p2 < bytes.len() && bytes[p2] == 45 && p2 + 1 < bytes.len() && bytes[p2 + 1] != 93 {
                let (hi, p3) = match parse_class_byte(bytes, p2 + 1) {
                    Ok(v) => v,
                    Err(e) => {
                        return Err(e);
                    },
                };
                if hi < lo {
                    return Err(ParseError::RegexUnsupported);
                }
                flags = merge_range(&flags, lo, hi);
                p = p3;
            } else {
                flags.set(lo as usize, true);
                p = p2;
            }
        }
    }
    if p >= bytes.len() {
        return Err(ParseError::RegexUnsupported);
    }
    Ok((flags, p + 1))
}

/// Parses an alternation (the whole expression, or a group body).
fn parse_alt<A>(bytes: &Vec<u8>, pos: usize) -> (r: Result<(NFA<A>, usize), ParseError>)
    requires
        pos <= bytes@.len(),
    ensures
        match r {
            Ok((n, np)) => n.wf() && pos <= np <= bytes@.len() && spec_alt::<A>(bytes@, pos as int)
                == Some((n@, np as int)),
            Err(_) => spec_alt::<A>(bytes@, pos as int) is None,
        },
    decreases bytes@.len() - pos, 3int,
{
    let (mut acc, mut p) = match parse_cat(bytes, pos) {
        Ok(v) => v,
        Err(e) => {
            return Err(e);
        },
    };
    while p < bytes.len() && bytes[p] == 124
        invariant
            pos <= p <= bytes@.len(),
            acc.wf(),
            bytes@.len() == bytes.len(),
            spec_alt_loop(bytes@, p as int, acc@) == spec_alt::<A>(bytes@, pos as int),
        decreases bytes@.len() - p,
    {
        let (rhs, p2) = match parse_cat(bytes, p + 1) {
            Ok(v) => v,
            Err(e) => {
                return Err(e);
            },
        };
        if !can_combine(acc.state_count(), rhs.state_count()) {
            return Err(ParseError::RegexUnsupported);
        }
        acc = match acc.or(rhs) {
            Ok(n) => n,
            Err(e) => {
                return Err(e);
            },
        };
        p = p2;
    }
    Ok((acc, p))
}

/// Parses a concatenation: a run of repeated atoms.
fn parse_cat<A>(bytes: &Vec<u8>, pos: usize) -> (r: Result<(NFA<A>, usize), ParseError>)
    requires
        pos <= bytes@.len(),
    ensures
        match r {
            Ok((n, np)) => n.wf() && pos <= np <= bytes@.len() && spec_cat::<A>(bytes@, pos as int)
                == Some((n@, np as int)),
            Err(_) => spec_cat::<A>(bytes@, pos as int) is None,
        },
    decreases bytes@.len() - pos, 2int,
{
    let mut acc = NFA::<A>::empty();
    let mut p = pos;
    while p < bytes.len() && bytes[p] != 124 && bytes[p] != 41
        invariant
            pos <= p <= bytes@.len(),
            acc.wf(),
            bytes@.len() == bytes.len(),
            spec_cat_loop(bytes@, p as int, acc@) == spec_cat::<A>(bytes@, pos as int),
        decreases bytes@.len() - p,
    {
        let (rhs, p2) = match parse_rep(bytes, p) {
            Ok(v) => v,
            Err(e) => {
                return Err(e);
            },
        };
        if !can_combine(acc.state_count(), rhs.state_count()) {
            return Err(ParseError::RegexUnsupported);
        }
        acc = acc.concat(rhs);
        p = p2;
    }
    Ok((acc, p))
}

/// Parses one atom with its postfix repetition operators.
fn parse_rep<A>(bytes: &Vec<u8>, pos: usize) -> (r: Result<(NFA<A>, usize), ParseError>)
    requires
        pos < bytes@.len(),
    ensures
        match r {
            Ok((n, np)) => n.wf() && pos < np <= bytes@.len() && spec_rep::<A>(bytes@, pos as int)
                == Some((n@, np as int)),
            Err(_) => spec_rep::<A>(bytes@, pos as int) is None,
        },
    decreases bytes@.len() - pos, 1int,
{
    let (mut acc, mut p) = match parse_atom(bytes, pos) {
        Ok(v) => v,
        Err(e) => {
            return Err(e);
        },
    };
    while p < bytes.len() && (bytes[p] == 63 || bytes[p] == 42 || bytes[p] == 43)
        invariant
            pos < p <= bytes@.len(),
            acc.wf(),
            bytes@.len() == bytes.len(),
            spec_rep_loop(bytes@, p as int, acc@) == spec_rep::<A>(bytes@, pos as int),
        decreases bytes@.len() - p,
    {
        if acc.state_count() > usize::MAX - 2 {
            return Err(ParseError::RegexUnsupported);
        }
        let op = bytes[p];
        let rep = if op == 63 {
            acc.repeat(0, Some(1))
        } else if op == 42 {
            acc.repeat(0, None)
        } else {
            acc.repeat(1, None)
        };
        acc = match rep {
            Ok(n) => n,
            Err(e) => {
                return Err(e);
            },
        };
        p = p + 1;
    }
    Ok((acc, p))
}

/// Parses one atom: a group, a class, `.`, an escape, or a literal byte.
fn parse_atom<A>(bytes: &Vec<u8>, pos: usize) -> (r: Result<(NFA<A>, usize), ParseError>)
    requires
        pos < bytes@.len(),
    ensures
        match r {
            Ok((n, np)) => n.wf() && pos < np <= bytes@.len() && spec_atom::<A>(bytes@, pos as int)
                == Some((n@, np as int)),
            Err(_) => spec_atom::<A>(bytes@, pos as int) is None,
        },
    decreases bytes@.len() - pos, 0int,
{
    let blen = bytes.len();
    let b = bytes[pos];
    if b == 40 {
        let (inner, p2) = match parse_alt(bytes, pos + 1) {
            Ok(v) => v,
            Err(e) => {
                return Err(e);
            },
        };
        if p2 < blen && bytes[p2] == 41 {
            Ok((inner, p2 + 1))
        } else {
            Err(ParseError::RegexUnsupported)
        }
    } else if b == 91 {
        let (flags, p2) = match parse_class(bytes, pos + 1) {
            Ok(v) => v,
            Err(e) => {
                return Err(e);
            },
        };
        Ok((NFA::byte_class(&flags), p2))
    } else if b == 46 {
        let flags = const_flags(true);
        Ok((NFA::byte_class(&flags), pos + 1))
    } else if b == 92 {
        if pos + 1 >= blen {
            return Err(ParseError::RegexUnsupported);
        }
        let e = bytes[pos + 1];
        if is_meta_byte(e) {
            let mut flags = const_flags(false);
            flags.set(e as usize, true);
            Ok((NFA::byte_class(&flags), pos + 2))
        } else if e == 115 {
            let flags = space_flags();
            Ok((NFA::byte_class(&flags), pos + 2))
        } else if e == 83 {
            let flags = not_space_flags();
            Ok((NFA::byte_class(&flags), pos + 2))
        } else if e == 100 {
            let flags = digit_flags();
            Ok((NFA::byte_class(&flags), pos + 2))
        } else {
            Err(ParseError::RegexUnsupported)
        }
    } else if b == 94 || b == 36 || b == 123 || b == 125 || b == 42 || b == 43 || b == 63 || b
        == 41 {
        Err(ParseError::RegexUnsupported)
    } else {
        let mut flags = const_flags(false);
        flags.set(b as usize, true);
        Ok((NFA::byte_class(&flags), pos + 1))
    }
}

/// Compiles a regular expression of the supported subset into the NFA over
/// its bytes that `nfa_of_pattern` names.  The whole pattern must be
/// consumed.
pub fn regex_to_nfa<A>(pattern: &str) -> (r: Result<NFA<A>, ParseError>)
    ensures
        match r {
            Ok(n) => n.wf() && nfa_of_pattern::<A>(pattern.spec_bytes()) == Some(n@),
            Err(_) => nfa_of_pattern::<A>(pattern.spec_bytes()) is None,
        },
{
    let bytes = pattern.as_bytes_vec();
    match parse_alt(&bytes, 0) {
        Ok((nfa, p)) => {
            if p == bytes.len() {
                Ok(nfa)
            } else {
                Err(ParseError::RegexUnsupported)
            }
        },
        Err(e) => Err(e),
    }
}

/// Whether `pattern` lies in the regex subset the engine supports.
pub fn we_support_regex(pattern: &str) -> (r: bool)
    ensures
        r == (nfa_of_pattern::<u32>(pattern.spec_bytes()) is Some),
{
    match regex_to_nfa::<u32>(pattern) {
        Ok(_) => true,
        Err(_) => false,
    }
}

} // verus!
