//! Character-level scanning helpers shared by the leaf parsers: trimming
//! whitespace, locating the token separator, and reading unsigned integers.

use vstd::prelude::*;
use vstd::string::StrSliceExecFns;

verus! {

/// The whitespace characters recognised by the grammar (the regex `\s` set).
pub open spec fn is_space_char(c: char) -> bool {
    c == ' ' || c == '\t' || c == '\n' || c == '\r' || c == '\u{b}' || c == '\u{c}'
}

pub fn is_space(c: char) -> (b: bool)
    ensures
        b == is_space_char(c),
{
    c == ' ' || c == '\t' || c == '\n' || c == '\r' || c == '\u{b}' || c == '\u{c}'
}

/// `s` with its leading whitespace removed.
pub open spec fn trimmed_start(s: Seq<char>) -> Seq<char>
    decreases s.len(),
{
    if s.len() == 0 {
        s
    } else if is_space_char(s[0]) {
        trimmed_start(s.subrange(1, s.len() as int))
    } else {
        s
    }
}

/// `s` with its trailing whitespace removed.
pub open spec fn trimmed_end(s: Seq<char>) -> Seq<char>
    decreases s.len(),
{
    if s.len() == 0 {
        s
    } else if is_space_char(s[s.len() - 1]) {
        trimmed_end(s.subrange(0, s.len() - 1))
    } else {
        s
    }
}

/// `s` with whitespace removed on both ends.
pub open spec fn trimmed(s: Seq<char>) -> Seq<char> {
    trimmed_end(trimmed_start(s))
}

proof fn lemma_trimmed_start_at(s: Seq<char>, i: int)
    requires
        0 <= i <= s.len(),
        forall|j: int| 0 <= j < i ==> is_space_char(s[j]),
        i == s.len() || !is_space_char(s[i]),
    ensures
        trimmed_start(s) == s.subrange(i, s.len() as int),
    decreases i,
{
    if i == 0 {
        if s.len() == 0 {
            assert(trimmed_start(s) =~= s.subrange(0, s.len() as int));
        } else {
            assert(trimmed_start(s) =~= s.subrange(0, s.len() as int));
        }
    } else {
        let t = s.subrange(1, s.len() as int);
        lemma_trimmed_start_at(t, i - 1);
        assert(t.subrange(i - 1, t.len() as int) =~= s.subrange(i, s.len() as int));
    }
}

proof fn lemma_trimmed_end_at(s: Seq<char>, i: int)
    requires
        0 <= i <= s.len(),
        forall|j: int| i <= j < s.len() ==> is_space_char(s[j]),
        i == 0 || !is_space_char(s[i - 1]),
    ensures
        trimmed_end(s) == s.subrange(0, i),
    decreases s.len() - i,
{
    if i == s.len() {
        if s.len() == 0 {
            assert(trimmed_end(s) =~= s.subrange(0, i));
        } else {
            assert(trimmed_end(s) =~= s.subrange(0, i));
        }
    } else {
        let t = s.subrange(0, s.len() - 1);
        lemma_trimmed_end_at(t, i);
        assert(t.subrange(0, i) =~= s.subrange(0, i));
    }
}

/// Removes leading whitespace, returning a suffix of `s`.
pub fn trim_start<'a>(s: &'a str) -> (r: &'a str)
    ensures
        r@ == trimmed_start(s@),
{
    let len = s.unicode_len();
    let mut i: usize = 0;
    while i < len && is_space(s.get_char(i))
        invariant
            0 <= i <= len,
            len == s@.len(),
            forall|j: int| 0 <= j < i ==> is_space_char(s@[j]),
        decreases len - i,
    {
        i += 1;
    }
    proof {
        lemma_trimmed_start_at(s@, i as int);
    }
    s.substring_char(i, len)
}

/// Removes whitespace on both ends, returning an infix of `s`.
pub fn trim<'a>(s: &'a str) -> (r: &'a str)
    ensures
        r@ == trimmed(s@),
{
    let t = trim_start(s);
    let len = t.unicode_len();
    let mut i: usize = len;
    while i > 0 && is_space(t.get_char(i - 1))
        invariant
            0 <= i <= len,
            len == t@.len(),
            forall|j: int| i <= j < len ==> is_space_char(t@[j]),
        decreases i,
    {
        i -= 1;
    }
    proof {
        lemma_trimmed_end_at(t@, i as int);
    }
    t.substring_char(0, i)
}

/// The index of the first plain space (`' '`) in `s`, if any.  The leaf
/// parsers split a token from the rest of the input at this index.
pub open spec fn first_space(s: Seq<char>) -> Option<int>
    decreases s.len(),
{
    if s.len() == 0 {
        None
    } else if s[0] == ' ' {
        Some(0int)
    } else {
        match first_space(s.subrange(1, s.len() as int)) {
            Some(j) => Some(j + 1),
            None => None,
        }
    }
}

pub proof fn lemma_first_space_at(s: Seq<char>, i: int)
    requires
        0 <= i <= s.len(),
        forall|j: int| 0 <= j < i ==> s[j] != ' ',
    ensures
        i == s.len() ==> first_space(s) is None,
        i < s.len() && s[i] == ' ' ==> first_space(s) == Some(i),
    decreases i,
{
    if i == 0 {
        if s.len() > 0 && s[0] != ' ' {
            assert(s.subrange(1, s.len() as int) =~= s.subrange(1, s.len() as int));
        }
    } else {
        let t = s.subrange(1, s.len() as int);
        lemma_first_space_at(t, i - 1);
    }
}

/// Splits `s` at its first space: the token before it and the remainder
/// starting at the space itself.  Without a space the token is all of `s`.
pub open spec fn token_end(s: Seq<char>) -> int {
    match first_space(s) {
        Some(i) => i,
        None => s.len() as int,
    }
}

/// Finds the end of the first token of `s` (the index of the first `' '`,
/// or the length of `s`).
pub fn find_token_end(s: &str) -> (r: usize)
    ensures
        r == token_end(s@),
        r <= s@.len(),
{
    let len = s.unicode_len();
    let mut i: usize = 0;
    while i < len && s.get_char(i) != ' '
        invariant
            0 <= i <= len,
            len == s@.len(),
            forall|j: int| 0 <= j < i ==> s@[j] != ' ',
        decreases len - i,
    {
        i += 1;
    }
    proof {
        lemma_first_space_at(s@, i as int);
    }
    i
}

pub open spec fn is_digit_char(c: char) -> bool {
    '0' <= c && c <= '9'
}

pub fn is_digit(c: char) -> (b: bool)
    ensures
        b == is_digit_char(c),
{
    '0' <= c && c <= '9'
}

pub open spec fn all_digits(s: Seq<char>) -> bool {
    forall|j: int| 0 <= j < s.len() ==> is_digit_char(s[j])
}

/// The numeric value of a sequence of decimal digits.
pub open spec fn digits_val(s: Seq<char>) -> nat
    decreases s.len(),
{
    if s.len() == 0 {
        0
    } else {
        (10 * digits_val(s.subrange(0, s.len() - 1)) + (s[s.len() - 1] as int - 48)) as nat
    }
}

/// Reading one more digit never decreases the value.
proof fn lemma_digits_val_step_mono(s: Seq<char>, i: int)
    requires
        0 <= i < s.len(),
        all_digits(s),
    ensures
        digits_val(s.subrange(0, i)) <= digits_val(s.subrange(0, i + 1)),
{
    let p = s.subrange(0, i + 1);
    assert(p.subrange(0, i) =~= s.subrange(0, i));
    assert(digits_val(p) == 10 * digits_val(s.subrange(0, i)) + (s[i] as nat - 48));
}

proof fn lemma_digits_val_mono(s: Seq<char>, i: int, j: int)
    requires
        0 <= i <= j <= s.len(),
        all_digits(s),
    ensures
        digits_val(s.subrange(0, i)) <= digits_val(s.subrange(0, j)),
    decreases j - i,
{
    if i < j {
        lemma_digits_val_mono(s, i, j - 1);
        lemma_digits_val_step_mono(s, j - 1);
    }
}

/// What `u32` reading of a token yields: an optional leading `+`, then one
/// or more decimal digits whose value fits in 32 bits.
pub open spec fn u32_of_token(s: Seq<char>) -> Option<u32> {
    let body = if s.len() > 0 && s[0] == '+' {
        s.subrange(1, s.len() as int)
    } else {
        s
    };
    if body.len() > 0 && all_digits(body) && digits_val(body) <= u32::MAX {
        Some(digits_val(body) as u32)
    } else {
        None
    }
}

/// Reads an unsigned 32-bit integer from `s`: an optional leading `+`, then
/// decimal digits.  Rejects empty bodies, other characters, and overflow.
pub fn parse_u32(s: &str) -> (r: Option<u32>)
    ensures
        r == u32_of_token(s@),
{
    let len = s.unicode_len();
    let start: usize = if len > 0 && s.get_char(0) == '+' {
        1
    } else {
        0
    };
    let ghost body = if s@.len() > 0 && s@[0] == '+' {
        s@.subrange(1, s@.len() as int)
    } else {
        s@
    };
    assert(body =~= s@.subrange(start as int, s@.len() as int));
    if start >= len {
        return None;
    }
    let mut acc: u64 = 0;
    let mut i: usize = start;
    while i < len
        invariant
            start <= i <= len,
            len == s@.len(),
            start < len,
            body == s@.subrange(start as int, s@.len() as int),
            body == (if s@.len() > 0 && s@[0] == '+' {
                s@.subrange(1, s@.len() as int)
            } else {
                s@
            }),
            forall|j: int| 0 <= j < i - start ==> is_digit_char(body[j]),
            acc == digits_val(body.subrange(0, i - start)),
            acc <= u32::MAX,
        decreases len - i,
    {
        let c = s.get_char(i);
        if !is_digit(c) {
            assert(body[i - start] == s@[i as int]);
            assert(!all_digits(body));
            return None;
        }
        let d: u64 = (c as u64) - 48;
        proof {
            assert(body.subrange(0, i + 1 - start).subrange(0, i - start) =~= body.subrange(
                0,
                i - start,
            ));
            assert(body.subrange(0, i + 1 - start)[i - start] == s@[i as int]);
            assert(digits_val(body.subrange(0, i + 1 - start)) == 10 * (acc as nat) + (d as nat));
        }
        let next: u64 = acc * 10 + d;
        if next > u32::MAX as u64 {
            proof {
                if all_digits(body) {
                    lemma_digits_val_mono(body, i + 1 - start, body.len() as int);
                    assert(body.subrange(0, body.len() as int) =~= body);
                    assert(digits_val(body) > u32::MAX);
                }
            }
            return None;
        }
        acc = next;
        i += 1;
    }
    assert(body.subrange(0, i - start) =~= body);
    Some(acc as u32)
}

/// Compares two strings character by character.
pub fn str_eq(a: &str, b: &str) -> (r: bool)
    ensures
        r == (a@ == b@),
{
    let alen = a.unicode_len();
    let blen = b.unicode_len();
    if alen != blen {
        return false;
    }
    let mut i: usize = 0;
    while i < alen
        invariant
            0 <= i <= alen,
            alen == a@.len(),
            alen == b@.len(),
            forall|j: int| 0 <= j < i ==> a@[j] == b@[j],
        decreases alen - i,
    {
        if a.get_char(i) != b.get_char(i) {
            return false;
        }
        i += 1;
    }
    proof {
        assert(a@ =~= b@);
    }
    true
}

/// Whether `a` begins with `b`, character by character.
pub fn str_starts_with(a: &str, b: &str) -> (r: bool)
    ensures
        r == (a@.len() >= b@.len() && a@.subrange(0, b@.len() as int) == b@),
{
    let alen = a.unicode_len();
    let blen = b.unicode_len();
    if alen < blen {
        return false;
    }
    let mut i: usize = 0;
    while i < blen
        invariant
            0 <= i <= blen,
            alen == a@.len(),
            blen == b@.len(),
            blen <= alen,
            forall|j: int| 0 <= j < i ==> a@[j] == b@[j],
        decreases blen - i,
    {
        if a.get_char(i) != b.get_char(i) {
            assert(a@.subrange(0, b@.len() as int)[i as int] != b@[i as int]);
            return false;
        }
        i += 1;
    }
    proof {
        assert(a@.subrange(0, b@.len() as int) =~= b@);
    }
    true
}

/// The end of the run of decimal digits in `s` that starts at `i`: the
/// first index at or after `i` holding no digit.
pub open spec fn digit_run_end(s: Seq<char>, i: int) -> int
    decreases s.len() - i,
{
    if 0 <= i < s.len() && is_digit_char(s[i]) {
        digit_run_end(s, i + 1)
    } else {
        i
    }
}

} // verus!
